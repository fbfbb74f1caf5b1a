//! Parsing the versioned schema file format.
//!
//! The format is byte-oriented: a major-version byte (this crate knows
//! version 1), then a module count, then each module as a name, a method
//! count and its methods; layouts are serialized recursively with one tag
//! byte each.  A parsed schema serializes back to exactly the input.

use crate::encode::chars_eq;
use crate::layout::{
    distinct_names, field_views_of, lemma_field_views_of, lemma_wf_fields_index, wf_fields,
    wf_layout, LayoutV, TypeLayout, Width,
};
use crate::schema::{
    method_views_of, module_views_of, wf_methods, wf_modules, wf_schema, MethodSchema, MethodV,
    ModuleSchema, ModuleV, SchemaV, VersionedModuleSchema,
};
use vstd::prelude::*;

verus! {

/// Why schema parsing failed.
#[derive(Clone, Copy, Debug, PartialEq, Eq, Structural)]
pub enum SchemaParseError {
    /// The leading byte names a major version this crate does not know.
    UnsupportedVersion,
    /// The buffer ends before the schema does.
    Truncated,
    /// A tag, width, count or name byte holds no meaningful value.
    Malformed,
    /// Bytes remain after the schema ends.
    TrailingBytes,
    /// The surrounding base64 text does not decode.
    InvalidBase64,
}

/// The byte code of a prefix width.
pub open spec fn width_code(w: nat) -> u8 {
    if w == 1 {
        0
    } else if w == 2 {
        1
    } else if w == 4 {
        2
    } else {
        3
    }
}

/// The bytes of an ASCII name's characters.
pub open spec fn chars_bytes(s: Seq<char>) -> Seq<u8>
    decreases s,
{
    if s.len() == 0 {
        Seq::empty()
    } else {
        seq![(s[0] as u32) as u8] + chars_bytes(s.drop_first())
    }
}

/// A length-prefixed ASCII name.
pub open spec fn name_bytes(s: Seq<char>) -> Seq<u8> {
    seq![s.len() as u8] + chars_bytes(s)
}

/// The serialized form of a layout.
pub open spec fn layout_bytes(l: LayoutV) -> Seq<u8>
    decreases l, 0nat,
{
    match l {
        LayoutV::Bool => seq![0u8],
        LayoutV::UInt(w) => seq![1u8, width_code(w)],
        LayoutV::FixedBytes(n) => seq![2u8] + crate::wire::le_bytes_of(n, 4),
        LayoutV::VarBytes(w) => seq![3u8, width_code(w)],
        LayoutV::Text(w) => seq![4u8, width_code(w)],
        LayoutV::List(w, el) => seq![5u8, width_code(w)] + layout_bytes(*el),
        LayoutV::Optional(el) => seq![6u8] + layout_bytes(*el),
        LayoutV::Struct(fs) => seq![7u8, fs.len() as u8] + lfields_bytes(fs),
        LayoutV::Union(vs) => seq![8u8, vs.len() as u8] + lfields_bytes(vs),
    }
}

/// The serialized form of a field list: each name, then its layout.
pub open spec fn lfields_bytes(fs: Seq<(Seq<char>, LayoutV)>) -> Seq<u8>
    decreases fs, 1nat,
{
    if fs.len() == 0 {
        Seq::empty()
    } else {
        name_bytes(fs[0].0) + layout_bytes(fs[0].1) + lfields_bytes(fs.drop_first())
    }
}

/// The serialized form of a method: name, flag byte for a declared
/// return layout, parameter layout, then the return layout when declared.
pub open spec fn method_bytes(m: MethodV) -> Seq<u8> {
    name_bytes(m.name) + (match m.ret {
        Some(rl) => seq![1u8] + layout_bytes(m.param) + layout_bytes(rl),
        None => seq![0u8] + layout_bytes(m.param),
    })
}

pub open spec fn methods_bytes(ms: Seq<MethodV>) -> Seq<u8>
    decreases ms,
{
    if ms.len() == 0 {
        Seq::empty()
    } else {
        method_bytes(ms[0]) + methods_bytes(ms.drop_first())
    }
}

/// The serialized form of a module: name, method count, methods.
pub open spec fn module_bytes(m: ModuleV) -> Seq<u8> {
    name_bytes(m.name) + seq![m.methods.len() as u8] + methods_bytes(m.methods)
}

pub open spec fn modules_bytes(ms: Seq<ModuleV>) -> Seq<u8>
    decreases ms,
{
    if ms.len() == 0 {
        Seq::empty()
    } else {
        module_bytes(ms[0]) + modules_bytes(ms.drop_first())
    }
}

/// The serialized form of a whole schema, version byte first.
pub open spec fn schema_bytes(s: SchemaV) -> Seq<u8> {
    seq![1u8, s.modules.len() as u8] + modules_bytes(s.modules)
}

/// A name the wire format can carry: at most 255 characters, each below
/// 0x80, so its length byte and character bytes are faithful.
pub open spec fn ascii_name(s: Seq<char>) -> bool {
    s.len() <= 255 && (forall|i: int| 0 <= i < s.len() ==> ((#[trigger] s[i]) as u32) < 0x80)
}

/// Whether the wire format can carry the layout faithfully: names are
/// ASCII, field and variant counts fit their one count byte, and a fixed
/// size fits its four-byte prefix.
pub open spec fn representable_layout(l: LayoutV) -> bool
    decreases l, 0nat,
{
    match l {
        LayoutV::Bool => true,
        LayoutV::UInt(_) => true,
        LayoutV::FixedBytes(n) => n < crate::wire::pow256(4),
        LayoutV::VarBytes(_) => true,
        LayoutV::Text(_) => true,
        LayoutV::List(_, el) => representable_layout(*el),
        LayoutV::Optional(el) => representable_layout(*el),
        LayoutV::Struct(fs) => fs.len() <= 255 && representable_fields(fs),
        LayoutV::Union(vs) => vs.len() <= 255 && representable_fields(vs),
    }
}

pub open spec fn representable_fields(fs: Seq<(Seq<char>, LayoutV)>) -> bool
    decreases fs, 1nat,
{
    if fs.len() == 0 {
        true
    } else {
        ascii_name(fs[0].0) && representable_layout(fs[0].1) && representable_fields(
            fs.drop_first(),
        )
    }
}

pub open spec fn representable_method(m: MethodV) -> bool {
    ascii_name(m.name) && representable_layout(m.param) && (match m.ret {
        Some(l) => representable_layout(l),
        None => true,
    })
}

pub open spec fn representable_methods(ms: Seq<MethodV>) -> bool
    decreases ms,
{
    if ms.len() == 0 {
        true
    } else {
        representable_method(ms[0]) && representable_methods(ms.drop_first())
    }
}

pub open spec fn representable_module(m: ModuleV) -> bool {
    ascii_name(m.name) && m.methods.len() <= 255 && representable_methods(m.methods)
}

pub open spec fn representable_modules(ms: Seq<ModuleV>) -> bool
    decreases ms,
{
    if ms.len() == 0 {
        true
    } else {
        representable_module(ms[0]) && representable_modules(ms.drop_first())
    }
}

/// Whether the wire format can carry the schema faithfully: every name is
/// ASCII and every count fits its count byte.
pub open spec fn representable_schema(s: SchemaV) -> bool {
    s.modules.len() <= 255 && representable_modules(s.modules)
}

/// A name's serialization occupies `data` from `pos` on.
pub open spec fn name_at(data: Seq<u8>, pos: int, n: Seq<char>) -> bool {
    &&& 0 <= pos
    &&& ascii_name(n)
    &&& pos + name_bytes(n).len() <= data.len()
    &&& data.subrange(pos, pos + name_bytes(n).len()) == name_bytes(n)
}

/// A well-formed, representable layout's serialization occupies `data`
/// from `pos` on.
pub open spec fn layout_at(data: Seq<u8>, pos: int, l: LayoutV) -> bool {
    &&& 0 <= pos
    &&& wf_layout(l)
    &&& representable_layout(l)
    &&& pos + layout_bytes(l).len() <= data.len()
    &&& data.subrange(pos, pos + layout_bytes(l).len()) == layout_bytes(l)
}

/// A field list's serialization occupies `data` from `pos` on.
pub open spec fn fields_at(data: Seq<u8>, pos: int, fs: Seq<(Seq<char>, LayoutV)>) -> bool {
    &&& 0 <= pos
    &&& wf_fields(fs)
    &&& representable_fields(fs)
    &&& pos + lfields_bytes(fs).len() <= data.len()
    &&& data.subrange(pos, pos + lfields_bytes(fs).len()) == lfields_bytes(fs)
}

/// A method's serialization occupies `data` from `pos` on.
pub open spec fn method_at(data: Seq<u8>, pos: int, m: MethodV) -> bool {
    &&& 0 <= pos
    &&& wf_layout(m.param)
    &&& (match m.ret {
        Some(l) => wf_layout(l),
        None => true,
    })
    &&& representable_method(m)
    &&& pos + method_bytes(m).len() <= data.len()
    &&& data.subrange(pos, pos + method_bytes(m).len()) == method_bytes(m)
}

/// A method list's serialization occupies `data` from `pos` on.
pub open spec fn methods_at(data: Seq<u8>, pos: int, ms: Seq<MethodV>) -> bool {
    &&& 0 <= pos
    &&& wf_methods(ms)
    &&& representable_methods(ms)
    &&& pos + methods_bytes(ms).len() <= data.len()
    &&& data.subrange(pos, pos + methods_bytes(ms).len()) == methods_bytes(ms)
}

/// A module's serialization occupies `data` from `pos` on.
pub open spec fn module_at(data: Seq<u8>, pos: int, m: ModuleV) -> bool {
    &&& 0 <= pos
    &&& wf_methods(m.methods)
    &&& representable_module(m)
    &&& pos + module_bytes(m).len() <= data.len()
    &&& data.subrange(pos, pos + module_bytes(m).len()) == module_bytes(m)
}

/// A module list's serialization occupies `data` from `pos` on.
pub open spec fn modules_at(data: Seq<u8>, pos: int, ms: Seq<ModuleV>) -> bool {
    &&& 0 <= pos
    &&& wf_modules(ms)
    &&& representable_modules(ms)
    &&& pos + modules_bytes(ms).len() <= data.len()
    &&& data.subrange(pos, pos + modules_bytes(ms).len()) == modules_bytes(ms)
}

/// A character run's bytes: one per character, each the character's
/// scalar value truncated to a byte.
proof fn lemma_chars_bytes_index(s: Seq<char>)
    ensures
        chars_bytes(s).len() == s.len(),
        forall|i: int| 0 <= i < s.len() ==> chars_bytes(s)[i] == ((#[trigger] s[i]) as u32) as u8,
    decreases s,
{
    if s.len() > 0 {
        lemma_chars_bytes_index(s.drop_first());
        assert forall|i: int| 0 <= i < s.len() implies chars_bytes(s)[i] == ((#[trigger] s[i])
            as u32) as u8 by {
            if i > 0 {
                assert(s.drop_first()[i - 1] == s[i]);
                assert(chars_bytes(s)[i] == chars_bytes(s.drop_first())[i - 1]);
            }
        }
    }
}

/// Reads a length-prefixed ASCII name.
fn parse_name(data: &Vec<u8>, pos: usize) -> (r: Result<(Vec<char>, usize), SchemaParseError>)
    requires
        pos <= data@.len(),
    ensures
        match r {
            Ok((name, newpos)) => pos < newpos <= data@.len() && ascii_name(name@) && name_bytes(
                name@,
            ) == data@.subrange(pos as int, newpos as int),
            Err(e) => e == SchemaParseError::Truncated || e == SchemaParseError::Malformed,
        },
        forall|nw: Seq<char>|
            name_at(data@, pos as int, nw) ==> (r matches Ok(p) && p.0@ == nw && p.1 == pos
                + name_bytes(nw).len()),
{
    if data.len() - pos < 1 {
        proof {
            assert forall|nw: Seq<char>| !name_at(data@, pos as int, nw) by {
                if name_at(data@, pos as int, nw) {
                    assert(name_bytes(nw).len() >= 1);
                    assert(false);
                }
            }
        }
        return Err(SchemaParseError::Truncated);
    }
    let n = data[pos] as usize;
    proof {
        assert forall|nw: Seq<char>| name_at(data@, pos as int, nw) implies nw.len() == n by {
            lemma_chars_bytes_index(nw);
            assert(data@.subrange(pos as int, pos + name_bytes(nw).len())[0] == name_bytes(nw)[0]);
            assert(data@[pos as int] == nw.len() as u8);
        }
    }
    if data.len() - pos - 1 < n {
        proof {
            assert forall|nw: Seq<char>| !name_at(data@, pos as int, nw) by {
                if name_at(data@, pos as int, nw) {
                    lemma_chars_bytes_index(nw);
                    assert(name_bytes(nw).len() == 1 + nw.len());
                    assert(false);
                }
            }
        }
        return Err(SchemaParseError::Truncated);
    }
    let mut name: Vec<char> = Vec::new();
    let mut i: usize = 0;
    let dl = data.len();
    proof {
        assert(chars_bytes(name@) =~= data@.subrange(pos + 1, pos + 1));
    }
    while i < n
        invariant
            i <= n,
            dl == data@.len(),
            pos + 1 + n <= dl,
            data@[pos as int] == n as u8,
            n <= 255,
            name@.len() == i,
            chars_bytes(name@) == data@.subrange(pos + 1, pos + 1 + i),
            forall|k: int| 0 <= k < name@.len() ==> ((#[trigger] name@[k]) as u32) < 0x80,
            forall|nw: Seq<char>| name_at(data@, pos as int, nw) ==> nw.len() == n,
        decreases n - i,
    {
        let b = data[pos + 1 + i];
        if b >= 0x80 {
            proof {
                assert forall|nw: Seq<char>| !name_at(data@, pos as int, nw) by {
                    if name_at(data@, pos as int, nw) {
                        lemma_chars_bytes_index(nw);
                        assert(name_bytes(nw)[1 + i] == chars_bytes(nw)[i as int]);
                        assert(data@.subrange(pos as int, pos + name_bytes(nw).len())[1 + i]
                            == name_bytes(nw)[1 + i]);
                        assert(data@[pos + 1 + i] == ((nw[i as int]) as u32) as u8);
                        assert(((nw[i as int]) as u32) < 0x80);
                        assert(false);
                    }
                }
            }
            return Err(SchemaParseError::Malformed);
        }
        let c = match char::from_u32(b as u32) {
            Some(c) => c,
            None => {
                proof {
                    assert(vstd::utf8::is_scalar(b as u32));
                    assert(false);
                }
                return Err(SchemaParseError::Malformed);
            },
        };
        let ghost pre = name@;
        name.push(c);
        proof {
            lemma_chars_bytes_append(pre, seq![c]);
            assert(pre + seq![c] =~= name@);
            assert(seq![c].drop_first().len() == 0);
            assert(chars_bytes(seq![c].drop_first()) =~= Seq::<u8>::empty());
            assert(chars_bytes(seq![c]) =~= seq![b]);
            assert(chars_bytes(name@) =~= data@.subrange(pos + 1, pos + 1 + i + 1));
        }
        i = i + 1;
    }
    proof {
        assert(name_bytes(name@) =~= data@.subrange(pos as int, (pos + 1 + n) as int));
        assert forall|nw: Seq<char>| name_at(data@, pos as int, nw) implies nw == name@ && pos
            + name_bytes(nw).len() == pos + 1 + n by {
            lemma_chars_bytes_index(nw);
            lemma_chars_bytes_index(name@);
            assert(nw.len() == n);
            assert forall|k: int| 0 <= k < n implies nw[k] == name@[k] by {
                assert(name_bytes(nw)[1 + k] == chars_bytes(nw)[k]);
                assert(data@.subrange(pos as int, pos + name_bytes(nw).len())[1 + k]
                    == name_bytes(nw)[1 + k]);
                assert(data@[pos + 1 + k] == ((nw[k]) as u32) as u8);
                assert(chars_bytes(name@)[k] == data@.subrange(pos + 1, pos + 1 + n)[k]);
                assert(((name@[k]) as u32) as u8 == ((nw[k]) as u32) as u8);
                assert((name@[k]) as u32 == (nw[k]) as u32);
                vstd::utf8::char_u32_cast(nw[k], (nw[k]) as u32);
                vstd::utf8::char_u32_cast(name@[k], (name@[k]) as u32);
            }
            assert(nw =~= name@);
        }
    }
    Ok((name, pos + 1 + n))
}

/// Splitting a character run splits its bytes.
proof fn lemma_chars_bytes_append(a: Seq<char>, b: Seq<char>)
    ensures
        chars_bytes(a + b) == chars_bytes(a) + chars_bytes(b),
    decreases a,
{
    if a.len() == 0 {
        assert(a + b =~= b);
        assert(chars_bytes(a) + chars_bytes(b) =~= chars_bytes(b));
    } else {
        lemma_chars_bytes_append(a.drop_first(), b);
        assert((a + b).drop_first() =~= a.drop_first() + b);
        assert((a + b)[0] == a[0]);
        assert(chars_bytes(a + b) =~= chars_bytes(a) + chars_bytes(b));
    }
}

/// Reads a width byte.
fn parse_width(data: &Vec<u8>, pos: usize) -> (r: Result<Width, SchemaParseError>)
    requires
        pos < data@.len(),
    ensures
        match r {
            Ok(w) => width_code(w.bytes()) == data@[pos as int],
            Err(e) => e == SchemaParseError::Malformed,
        },
        forall|ww: nat|
            crate::layout::valid_width(ww) && width_code(ww) == data@[pos as int] ==> (r matches Ok(
                w,
            ) && w.bytes() == ww),
{
    match data[pos] {
        0 => Ok(Width::B1),
        1 => Ok(Width::B2),
        2 => Ok(Width::B4),
        3 => Ok(Width::B8),
        _ => Err(SchemaParseError::Malformed),
    }
}

/// Every layout's serialization holds at least its tag byte.
proof fn lemma_layout_bytes_len(l: LayoutV)
    ensures
        layout_bytes(l).len() >= 1,
{
    match l {
        LayoutV::Bool => {},
        LayoutV::UInt(_) => {},
        LayoutV::FixedBytes(_) => {},
        LayoutV::VarBytes(_) => {},
        LayoutV::Text(_) => {},
        LayoutV::List(_, _) => {},
        LayoutV::Optional(_) => {},
        LayoutV::Struct(_) => {},
        LayoutV::Union(_) => {},
    }
}

/// The tag byte that opens a layout's serialization.
pub open spec fn layout_tag(l: LayoutV) -> u8 {
    match l {
        LayoutV::Bool => 0u8,
        LayoutV::UInt(_) => 1u8,
        LayoutV::FixedBytes(_) => 2u8,
        LayoutV::VarBytes(_) => 3u8,
        LayoutV::Text(_) => 4u8,
        LayoutV::List(_, _) => 5u8,
        LayoutV::Optional(_) => 6u8,
        LayoutV::Struct(_) => 7u8,
        LayoutV::Union(_) => 8u8,
    }
}

/// What a layout whose serialization occupies `data` from `pos` must look
/// like, read off its tag byte.
proof fn lemma_layout_at_inv(data: Seq<u8>, pos: int, lw: LayoutV)
    requires
        layout_at(data, pos, lw),
    ensures
        pos < data.len(),
        data[pos] == layout_tag(lw),
        layout_tag(lw) <= 8,
        data[pos] == 0 ==> lw == LayoutV::Bool && layout_bytes(lw).len() == 1,
        data[pos] == 1 ==> (lw matches LayoutV::UInt(ww) && crate::layout::valid_width(ww) && pos
            + 2 <= data.len() && data[pos + 1] == width_code(ww) && layout_bytes(lw).len() == 2),
        data[pos] == 2 ==> (lw matches LayoutV::FixedBytes(nw) && nw < crate::wire::pow256(4)
            && pos + 5 <= data.len() && crate::wire::le_value_of(data.subrange(pos + 1, pos + 5))
            == nw && layout_bytes(lw).len() == 5),
        data[pos] == 3 ==> (lw matches LayoutV::VarBytes(ww) && crate::layout::valid_width(ww)
            && pos + 2 <= data.len() && data[pos + 1] == width_code(ww) && layout_bytes(lw).len()
            == 2),
        data[pos] == 4 ==> (lw matches LayoutV::Text(ww) && crate::layout::valid_width(ww) && pos
            + 2 <= data.len() && data[pos + 1] == width_code(ww) && layout_bytes(lw).len() == 2),
        data[pos] == 5 ==> (lw matches LayoutV::List(ww, elw) && crate::layout::valid_width(ww)
            && pos + 2 <= data.len() && data[pos + 1] == width_code(ww) && layout_at(
            data,
            pos + 2,
            *elw,
        ) && layout_bytes(lw).len() == 2 + layout_bytes(*elw).len()),
        data[pos] == 6 ==> (lw matches LayoutV::Optional(elw) && layout_at(data, pos + 1, *elw)
            && layout_bytes(lw).len() == 1 + layout_bytes(*elw).len()),
        data[pos] == 7 ==> (lw matches LayoutV::Struct(fsw) && distinct_names(fsw) && fsw.len()
            <= 255 && pos + 2 <= data.len() && data[pos + 1] == fsw.len() as u8 && fields_at(
            data,
            pos + 2,
            fsw,
        ) && layout_bytes(lw).len() == 2 + lfields_bytes(fsw).len()),
        data[pos] == 8 ==> (lw matches LayoutV::Union(vsw) && 1 <= vsw.len() <= 255
            && distinct_names(vsw) && pos + 2 <= data.len() && data[pos + 1] == vsw.len() as u8
            && fields_at(data, pos + 2, vsw) && layout_bytes(lw).len() == 2 + lfields_bytes(
            vsw,
        ).len()),
{
    let lb = layout_bytes(lw);
    lemma_layout_bytes_len(lw);
    assert(data.subrange(pos, pos + lb.len())[0] == lb[0]);
    assert(data[pos] == lb[0]);
    match lw {
        LayoutV::Bool => {},
        LayoutV::UInt(ww) => {
            assert(lb == seq![1u8, width_code(ww)]);
            assert(data.subrange(pos, pos + lb.len())[1] == lb[1]);
            assert(data[pos + 1] == width_code(ww));
        },
        LayoutV::FixedBytes(nw) => {
            crate::wire::lemma_le_bytes_len(nw, 4);
            let le = crate::wire::le_bytes_of(nw, 4);
            assert(lb == seq![2u8] + le);
            assert forall|k: int| 0 <= k < 4 implies data.subrange(pos + 1, pos + 5)[k]
                == le[k] by {
                assert(data.subrange(pos, pos + lb.len())[1 + k] == lb[1 + k]);
                assert(data.subrange(pos, pos + lb.len())[1 + k] == data[pos + (1 + k)]);
                assert(data.subrange(pos + 1, pos + 5)[k] == data[(pos + 1) + k]);
                assert(lb[1 + k] == le[k]);
            }
            assert(data.subrange(pos + 1, pos + 5) =~= le);
            crate::wire::lemma_le_round_trip(nw, 4);
        },
        LayoutV::VarBytes(ww) => {
            assert(lb == seq![3u8, width_code(ww)]);
            assert(data.subrange(pos, pos + lb.len())[1] == lb[1]);
            assert(data[pos + 1] == width_code(ww));
        },
        LayoutV::Text(ww) => {
            assert(lb == seq![4u8, width_code(ww)]);
            assert(data.subrange(pos, pos + lb.len())[1] == lb[1]);
            assert(data[pos + 1] == width_code(ww));
        },
        LayoutV::List(ww, elw) => {
            let el = layout_bytes(*elw);
            assert(lb == seq![5u8, width_code(ww)] + el);
            assert(data.subrange(pos, pos + lb.len())[1] == lb[1]);
            assert(data[pos + 1] == width_code(ww));
            assert forall|k: int| 0 <= k < el.len() implies data.subrange(
                pos + 2,
                pos + 2 + el.len(),
            )[k] == el[k] by {
                assert(data.subrange(pos, pos + lb.len())[2 + k] == lb[2 + k]);
                assert(data.subrange(pos, pos + lb.len())[2 + k] == data[pos + (2 + k)]);
                assert(data.subrange(pos + 2, pos + 2 + el.len())[k] == data[(pos + 2) + k]);
                assert(lb[2 + k] == el[k]);
            }
            assert(data.subrange(pos + 2, pos + 2 + el.len()) =~= el);
        },
        LayoutV::Optional(elw) => {
            let el = layout_bytes(*elw);
            assert(lb == seq![6u8] + el);
            assert forall|k: int| 0 <= k < el.len() implies data.subrange(
                pos + 1,
                pos + 1 + el.len(),
            )[k] == el[k] by {
                assert(data.subrange(pos, pos + lb.len())[1 + k] == lb[1 + k]);
                assert(data.subrange(pos, pos + lb.len())[1 + k] == data[pos + (1 + k)]);
                assert(data.subrange(pos + 1, pos + 1 + el.len())[k] == data[(pos + 1) + k]);
                assert(lb[1 + k] == el[k]);
            }
            assert(data.subrange(pos + 1, pos + 1 + el.len()) =~= el);
        },
        LayoutV::Struct(fsw) => {
            let fb = lfields_bytes(fsw);
            assert(lb == seq![7u8, fsw.len() as u8] + fb);
            assert(data.subrange(pos, pos + lb.len())[1] == lb[1]);
            assert(data[pos + 1] == fsw.len() as u8);
            assert forall|k: int| 0 <= k < fb.len() implies data.subrange(
                pos + 2,
                pos + 2 + fb.len(),
            )[k] == fb[k] by {
                assert(data.subrange(pos, pos + lb.len())[2 + k] == lb[2 + k]);
                assert(data.subrange(pos, pos + lb.len())[2 + k] == data[pos + (2 + k)]);
                assert(data.subrange(pos + 2, pos + 2 + fb.len())[k] == data[(pos + 2) + k]);
                assert(lb[2 + k] == fb[k]);
            }
            assert(data.subrange(pos + 2, pos + 2 + fb.len()) =~= fb);
        },
        LayoutV::Union(vsw) => {
            let fb = lfields_bytes(vsw);
            assert(lb == seq![8u8, vsw.len() as u8] + fb);
            assert(data.subrange(pos, pos + lb.len())[1] == lb[1]);
            assert(data[pos + 1] == vsw.len() as u8);
            assert forall|k: int| 0 <= k < fb.len() implies data.subrange(
                pos + 2,
                pos + 2 + fb.len(),
            )[k] == fb[k] by {
                assert(data.subrange(pos, pos + lb.len())[2 + k] == lb[2 + k]);
                assert(data.subrange(pos, pos + lb.len())[2 + k] == data[pos + (2 + k)]);
                assert(data.subrange(pos + 2, pos + 2 + fb.len())[k] == data[(pos + 2) + k]);
                assert(lb[2 + k] == fb[k]);
            }
            assert(data.subrange(pos + 2, pos + 2 + fb.len()) =~= fb);
        },
    }
}

/// Each field of a representable field list has an ASCII name and a
/// representable layout.
proof fn lemma_repr_fields_index(fs: Seq<(Seq<char>, LayoutV)>, i: int)
    requires
        representable_fields(fs),
        0 <= i < fs.len(),
    ensures
        ascii_name(fs[i].0),
        representable_layout(fs[i].1),
    decreases fs,
{
    if i > 0 {
        assert(fs.drop_first()[i - 1] == fs[i]);
        lemma_repr_fields_index(fs.drop_first(), i - 1);
    }
}

/// Where a field list's serialization occupies `data`, field `i`'s name
/// and layout occupy their own stretches, right after the fields before
/// them.
proof fn lemma_fields_at_index(data: Seq<u8>, pos: int, fw: Seq<(Seq<char>, LayoutV)>, i: int)
    requires
        fields_at(data, pos, fw),
        0 <= i < fw.len(),
    ensures
        name_at(data, pos + lfields_bytes(fw.take(i)).len(), fw[i].0),
        layout_at(
            data,
            pos + lfields_bytes(fw.take(i)).len() + name_bytes(fw[i].0).len(),
            fw[i].1,
        ),
        lfields_bytes(fw.take(i + 1)).len() == lfields_bytes(fw.take(i)).len() + name_bytes(
            fw[i].0,
        ).len() + layout_bytes(fw[i].1).len(),
        fw.take(i + 1) == fw.take(i).push(fw[i]),
        lfields_bytes(fw.take(i + 1)).len() <= lfields_bytes(fw).len(),
{
    let a = fw.take(i);
    let rest = fw.skip(i);
    assert(fw =~= a + rest);
    lemma_lfields_bytes_append(a, rest);
    assert(rest[0] == fw[i]);
    lemma_wf_fields_index(fw, i);
    lemma_repr_fields_index(fw, i);
    let nb = name_bytes(fw[i].0);
    let lbi = layout_bytes(fw[i].1);
    assert(lfields_bytes(rest) == nb + lbi + lfields_bytes(rest.drop_first()));
    let off = pos + lfields_bytes(a).len();
    assert(lfields_bytes(fw).len() == lfields_bytes(a).len() + lfields_bytes(rest).len());
    assert forall|k: int| 0 <= k < nb.len() implies data.subrange(off, off + nb.len())[k]
        == nb[k] by {
        assert(data.subrange(pos, pos + lfields_bytes(fw).len())[off - pos + k]
            == lfields_bytes(fw)[off - pos + k]);
        assert(data.subrange(pos, pos + lfields_bytes(fw).len())[off - pos + k] == data[pos + (off
            - pos + k)]);
        assert(data.subrange(off, off + nb.len())[k] == data[off + k]);
        assert(lfields_bytes(fw)[off - pos + k] == lfields_bytes(rest)[k]);
        assert(lfields_bytes(rest)[k] == nb[k]);
    }
    assert(data.subrange(off, off + nb.len()) =~= nb);
    let off2 = off + nb.len();
    assert forall|k: int| 0 <= k < lbi.len() implies data.subrange(off2, off2 + lbi.len())[k]
        == lbi[k] by {
        assert(data.subrange(pos, pos + lfields_bytes(fw).len())[off2 - pos + k]
            == lfields_bytes(fw)[off2 - pos + k]);
        assert(data.subrange(pos, pos + lfields_bytes(fw).len())[off2 - pos + k] == data[pos + (
        off2 - pos + k)]);
        assert(data.subrange(off2, off2 + lbi.len())[k] == data[off2 + k]);
        assert(lfields_bytes(fw)[off2 - pos + k] == lfields_bytes(rest)[nb.len() + k]);
        assert(lfields_bytes(rest)[nb.len() + k] == lbi[k]);
    }
    assert(data.subrange(off2, off2 + lbi.len()) =~= lbi);
    assert(a + seq![fw[i]] =~= fw.take(i + 1));
    lemma_lfields_bytes_append(a, seq![fw[i]]);
    assert(seq![fw[i]].drop_first().len() == 0);
    assert(lfields_bytes(seq![fw[i]].drop_first()) =~= Seq::<u8>::empty());
    assert(lfields_bytes(seq![fw[i]]) =~= nb + lbi);
    assert(fw.take(i + 1) =~= a.push(fw[i]));
    assert(lfields_bytes(fw.take(i + 1)).len() <= lfields_bytes(fw).len()) by {
        assert(lfields_bytes(rest) == nb + lbi + lfields_bytes(rest.drop_first()));
    }
}

/// Pushing a representable field keeps the list representable.
proof fn lemma_repr_fields_push(fs: Seq<(Seq<char>, LayoutV)>, f: (Seq<char>, LayoutV))
    ensures
        representable_fields(fs.push(f)) == (representable_fields(fs) && ascii_name(f.0)
            && representable_layout(f.1)),
    decreases fs,
{
    if fs.len() == 0 {
        assert(fs.push(f)[0] == f);
        assert(fs.push(f).drop_first() =~= fs);
    } else {
        lemma_repr_fields_push(fs.drop_first(), f);
        assert(fs.push(f)[0] == fs[0]);
        assert(fs.push(f).drop_first() =~= fs.drop_first().push(f));
    }
}

/// Whether every field name differs from every other.
fn check_distinct(fs: &Vec<(Vec<char>, TypeLayout)>) -> (b: bool)
    ensures
        b == distinct_names(field_views_of(fs@)),
{
    proof {
        lemma_field_views_of(fs@);
    }
    let ghost fv = field_views_of(fs@);
    let mut i: usize = 0;
    while i < fs.len()
        invariant
            i <= fs@.len(),
            fv == field_views_of(fs@),
            fv.len() == fs@.len(),
            forall|k: int| 0 <= k < fs@.len() ==> fv[k] == (#[trigger] fs@[k].0@, fs@[k].1@),
            forall|a: int, b2: int| 0 <= a < b2 < fs@.len() && a < i ==> (#[trigger] fv[a].0)
                != (#[trigger] fv[b2].0),
        decreases fs@.len() - i,
    {
        let mut j: usize = i + 1;
        while j < fs.len()
            invariant
                i < j <= fs@.len() || (i + 1 == j && j > fs@.len() - 1 && i < fs@.len()),
                i < fs@.len(),
                fv == field_views_of(fs@),
                fv.len() == fs@.len(),
                forall|k: int| 0 <= k < fs@.len() ==> fv[k] == (#[trigger] fs@[k].0@, fs@[k].1@),
                forall|b2: int| i < b2 < j ==> (#[trigger] fv[b2].0) != fv[i as int].0,
            decreases fs@.len() - j,
        {
            if chars_eq(&fs[i].0, &fs[j].0) {
                proof {
                    assert(fv[i as int].0 == fv[j as int].0);
                }
                return false;
            }
            j = j + 1;
        }
        i = i + 1;
    }
    proof {
        assert forall|a: int, b2: int| 0 <= a < b2 < fv.len() implies (#[trigger] fv[a].0) != (
        #[trigger] fv[b2].0) by {}
    }
    true
}

/// Parses one layout; on success the parsed layout is well formed,
/// representable, and serializes back to exactly the consumed bytes.
/// Success is owed: wherever a well-formed, representable layout's
/// serialization begins at `pos`, parsing returns exactly that layout and
/// consumes exactly its bytes.
#[verifier::rlimit(100)]
#[verifier::spinoff_prover]
pub fn parse_layout(data: &Vec<u8>, pos: usize) -> (r: Result<
    (TypeLayout, usize),
    SchemaParseError,
>)
    requires
        pos <= data@.len(),
    ensures
        match r {
            Ok((l, newpos)) => pos < newpos <= data@.len() && wf_layout(l@)
                && representable_layout(l@) && layout_bytes(l@) == data@.subrange(
                pos as int,
                newpos as int,
            ),
            Err(e) => e != SchemaParseError::UnsupportedVersion && e
                != SchemaParseError::TrailingBytes && e != SchemaParseError::InvalidBase64,
        },
        forall|lw: LayoutV|
            layout_at(data@, pos as int, lw) ==> (r matches Ok(p) && p.0@ == lw && p.1 == pos
                + layout_bytes(lw).len()),
    decreases data@.len() - pos, 1nat,
{
    if data.len() - pos < 1 {
        proof {
            assert forall|lw: LayoutV| !layout_at(data@, pos as int, lw) by {
                if layout_at(data@, pos as int, lw) {
                    lemma_layout_at_inv(data@, pos as int, lw);
                    assert(false);
                }
            }
        }
        return Err(SchemaParseError::Truncated);
    }
    let tag = data[pos];
    match tag {
        0 => {
            proof {
                assert(layout_bytes(LayoutV::Bool) =~= data@.subrange(pos as int, pos + 1));
                assert forall|lw: LayoutV| layout_at(data@, pos as int, lw) implies lw
                    == LayoutV::Bool && pos + layout_bytes(lw).len() == pos + 1 by {
                    lemma_layout_at_inv(data@, pos as int, lw);
                }
            }
            Ok((TypeLayout::Bool, pos + 1))
        },
        1 => {
            if data.len() - pos < 2 {
                proof {
                    assert forall|lw: LayoutV| !layout_at(data@, pos as int, lw) by {
                        if layout_at(data@, pos as int, lw) {
                            lemma_layout_at_inv(data@, pos as int, lw);
                            assert(false);
                        }
                    }
                }
                return Err(SchemaParseError::Truncated);
            }
            let w = match parse_width(data, pos + 1) {
                Ok(w) => w,
                Err(e) => {
                    proof {
                        assert forall|lw: LayoutV| !layout_at(data@, pos as int, lw) by {
                            if layout_at(data@, pos as int, lw) {
                                lemma_layout_at_inv(data@, pos as int, lw);
                                let ww = lw->UInt_0;
                                assert(crate::layout::valid_width(ww) && width_code(ww) == data@[pos
                                    + 1]);
                                assert(false);
                            }
                        }
                    }
                    return Err(e);
                },
            };
            let l = TypeLayout::UInt(w);
            proof {
                assert(layout_bytes(l@) =~= data@.subrange(pos as int, pos + 2));
                assert forall|lw: LayoutV| layout_at(data@, pos as int, lw) implies lw == l@ && pos
                    + layout_bytes(lw).len() == pos + 2 by {
                    lemma_layout_at_inv(data@, pos as int, lw);
                    let ww = lw->UInt_0;
                    assert(width_code(ww) == width_code(w.bytes()));
                    assert(ww == w.bytes());
                }
            }
            Ok((l, pos + 2))
        },
        2 => {
            if data.len() - pos < 5 {
                proof {
                    assert forall|lw: LayoutV| !layout_at(data@, pos as int, lw) by {
                        if layout_at(data@, pos as int, lw) {
                            lemma_layout_at_inv(data@, pos as int, lw);
                            assert(false);
                        }
                    }
                }
                return Err(SchemaParseError::Truncated);
            }
            let n = crate::wire::read_le(data, pos + 1, Width::B4);
            proof {
                crate::wire::lemma_pow256_values();
                crate::wire::lemma_le_value_bound(data@.subrange(pos + 1, pos + 5));
                crate::wire::lemma_le_bytes_of_value(data@.subrange(pos + 1, pos + 5));
                assert(crate::wire::le_bytes_of(n as nat, 4) =~= data@.subrange(pos + 1, pos + 5));
            }
            let l = TypeLayout::FixedBytes(n as u32);
            proof {
                assert(layout_bytes(l@) =~= data@.subrange(pos as int, pos + 5));
                assert forall|lw: LayoutV| layout_at(data@, pos as int, lw) implies lw == l@ && pos
                    + layout_bytes(lw).len() == pos + 5 by {
                    lemma_layout_at_inv(data@, pos as int, lw);
                    let nw = lw->FixedBytes_0;
                    assert(nw == crate::wire::le_value_of(data@.subrange(pos + 1, pos + 5)));
                    assert(nw == n as nat);
                }
            }
            Ok((l, pos + 5))
        },
        3 => {
            if data.len() - pos < 2 {
                proof {
                    assert forall|lw: LayoutV| !layout_at(data@, pos as int, lw) by {
                        if layout_at(data@, pos as int, lw) {
                            lemma_layout_at_inv(data@, pos as int, lw);
                            assert(false);
                        }
                    }
                }
                return Err(SchemaParseError::Truncated);
            }
            let w = match parse_width(data, pos + 1) {
                Ok(w) => w,
                Err(e) => {
                    proof {
                        assert forall|lw: LayoutV| !layout_at(data@, pos as int, lw) by {
                            if layout_at(data@, pos as int, lw) {
                                lemma_layout_at_inv(data@, pos as int, lw);
                                let ww = lw->VarBytes_0;
                                assert(crate::layout::valid_width(ww) && width_code(ww) == data@[pos
                                    + 1]);
                                assert(false);
                            }
                        }
                    }
                    return Err(e);
                },
            };
            let l = TypeLayout::VarBytes(w);
            proof {
                assert(layout_bytes(l@) =~= data@.subrange(pos as int, pos + 2));
                assert forall|lw: LayoutV| layout_at(data@, pos as int, lw) implies lw == l@ && pos
                    + layout_bytes(lw).len() == pos + 2 by {
                    lemma_layout_at_inv(data@, pos as int, lw);
                    let ww = lw->VarBytes_0;
                    assert(width_code(ww) == width_code(w.bytes()));
                    assert(ww == w.bytes());
                }
            }
            Ok((l, pos + 2))
        },
        4 => {
            if data.len() - pos < 2 {
                proof {
                    assert forall|lw: LayoutV| !layout_at(data@, pos as int, lw) by {
                        if layout_at(data@, pos as int, lw) {
                            lemma_layout_at_inv(data@, pos as int, lw);
                            assert(false);
                        }
                    }
                }
                return Err(SchemaParseError::Truncated);
            }
            let w = match parse_width(data, pos + 1) {
                Ok(w) => w,
                Err(e) => {
                    proof {
                        assert forall|lw: LayoutV| !layout_at(data@, pos as int, lw) by {
                            if layout_at(data@, pos as int, lw) {
                                lemma_layout_at_inv(data@, pos as int, lw);
                                let ww = lw->Text_0;
                                assert(crate::layout::valid_width(ww) && width_code(ww) == data@[pos
                                    + 1]);
                                assert(false);
                            }
                        }
                    }
                    return Err(e);
                },
            };
            let l = TypeLayout::Text(w);
            proof {
                assert(layout_bytes(l@) =~= data@.subrange(pos as int, pos + 2));
                assert forall|lw: LayoutV| layout_at(data@, pos as int, lw) implies lw == l@ && pos
                    + layout_bytes(lw).len() == pos + 2 by {
                    lemma_layout_at_inv(data@, pos as int, lw);
                    let ww = lw->Text_0;
                    assert(width_code(ww) == width_code(w.bytes()));
                    assert(ww == w.bytes());
                }
            }
            Ok((l, pos + 2))
        },
        5 => {
            if data.len() - pos < 2 {
                proof {
                    assert forall|lw: LayoutV| !layout_at(data@, pos as int, lw) by {
                        if layout_at(data@, pos as int, lw) {
                            lemma_layout_at_inv(data@, pos as int, lw);
                            assert(false);
                        }
                    }
                }
                return Err(SchemaParseError::Truncated);
            }
            let w = match parse_width(data, pos + 1) {
                Ok(w) => w,
                Err(e) => {
                    proof {
                        assert forall|lw: LayoutV| !layout_at(data@, pos as int, lw) by {
                            if layout_at(data@, pos as int, lw) {
                                lemma_layout_at_inv(data@, pos as int, lw);
                                let ww = lw->List_0;
                                assert(crate::layout::valid_width(ww) && width_code(ww) == data@[pos
                                    + 1]);
                                assert(false);
                            }
                        }
                    }
                    return Err(e);
                },
            };
            let (el, newpos) = match parse_layout(data, pos + 2) {
                Ok(p) => p,
                Err(e) => {
                    proof {
                        assert forall|lw: LayoutV| !layout_at(data@, pos as int, lw) by {
                            if layout_at(data@, pos as int, lw) {
                                lemma_layout_at_inv(data@, pos as int, lw);
                                assert(layout_at(data@, pos + 2, *lw->List_1));
                                assert(false);
                            }
                        }
                    }
                    return Err(e);
                },
            };
            let l = TypeLayout::List(w, Box::new(el));
            proof {
                assert(data@.subrange(pos + 2, newpos as int) =~= data@.subrange(
                    pos as int,
                    newpos as int,
                ).skip(2));
                assert(layout_bytes(l@) =~= data@.subrange(pos as int, newpos as int));
                assert forall|lw: LayoutV| layout_at(data@, pos as int, lw) implies lw == l@ && pos
                    + layout_bytes(lw).len() == newpos by {
                    lemma_layout_at_inv(data@, pos as int, lw);
                    let ww = lw->List_0;
                    assert(width_code(ww) == width_code(w.bytes()));
                    assert(ww == w.bytes());
                    assert(layout_at(data@, pos + 2, *lw->List_1));
                    assert(el@ == *lw->List_1);
                    assert(lw == LayoutV::List(ww, lw->List_1));
                    assert(l@ == LayoutV::List(w.bytes(), Box::new(el@)));
                }
            }
            Ok((l, newpos))
        },
        6 => {
            let (el, newpos) = match parse_layout(data, pos + 1) {
                Ok(p) => p,
                Err(e) => {
                    proof {
                        assert forall|lw: LayoutV| !layout_at(data@, pos as int, lw) by {
                            if layout_at(data@, pos as int, lw) {
                                lemma_layout_at_inv(data@, pos as int, lw);
                                assert(layout_at(data@, pos + 1, *lw->Optional_0));
                                assert(false);
                            }
                        }
                    }
                    return Err(e);
                },
            };
            let l = TypeLayout::Optional(Box::new(el));
            proof {
                assert(layout_bytes(l@) =~= data@.subrange(pos as int, newpos as int));
                assert forall|lw: LayoutV| layout_at(data@, pos as int, lw) implies lw == l@ && pos
                    + layout_bytes(lw).len() == newpos by {
                    lemma_layout_at_inv(data@, pos as int, lw);
                    assert(layout_at(data@, pos + 1, *lw->Optional_0));
                    assert(el@ == *lw->Optional_0);
                    assert(lw == LayoutV::Optional(lw->Optional_0));
                    assert(l@ == LayoutV::Optional(Box::new(el@)));
                }
            }
            Ok((l, newpos))
        },
        7 => {
            if data.len() - pos < 2 {
                proof {
                    assert forall|lw: LayoutV| !layout_at(data@, pos as int, lw) by {
                        if layout_at(data@, pos as int, lw) {
                            lemma_layout_at_inv(data@, pos as int, lw);
                            assert(false);
                        }
                    }
                }
                return Err(SchemaParseError::Truncated);
            }
            let count = data[pos + 1];
            let (fs, newpos) = match parse_layout_fields(data, pos + 2, count) {
                Ok(p) => p,
                Err(e) => {
                    proof {
                        assert forall|lw: LayoutV| !layout_at(data@, pos as int, lw) by {
                            if layout_at(data@, pos as int, lw) {
                                lemma_layout_at_inv(data@, pos as int, lw);
                                let fsw = lw->Struct_0;
                                assert(fsw.len() == count && fields_at(data@, pos + 2, fsw));
                                assert(false);
                            }
                        }
                    }
                    return Err(e);
                },
            };
            if !check_distinct(&fs) {
                proof {
                    assert forall|lw: LayoutV| !layout_at(data@, pos as int, lw) by {
                        if layout_at(data@, pos as int, lw) {
                            lemma_layout_at_inv(data@, pos as int, lw);
                            let fsw = lw->Struct_0;
                            assert(fsw.len() == count && fields_at(data@, pos + 2, fsw));
                            assert(field_views_of(fs@) == fsw);
                            assert(false);
                        }
                    }
                }
                return Err(SchemaParseError::Malformed);
            }
            let ghost fsv = field_views_of(fs@);
            let l = TypeLayout::Struct(fs);
            proof {
                assert(layout_bytes(l@) =~= data@.subrange(pos as int, newpos as int));
                assert forall|lw: LayoutV| layout_at(data@, pos as int, lw) implies lw == l@ && pos
                    + layout_bytes(lw).len() == newpos by {
                    lemma_layout_at_inv(data@, pos as int, lw);
                    let fsw = lw->Struct_0;
                    assert(fsw.len() == count && fields_at(data@, pos + 2, fsw));
                    assert(fsv == fsw);
                    assert(lw == LayoutV::Struct(fsw));
                    assert(l@ =~= lw);
                }
            }
            Ok((l, newpos))
        },
        8 => {
            if data.len() - pos < 2 {
                proof {
                    assert forall|lw: LayoutV| !layout_at(data@, pos as int, lw) by {
                        if layout_at(data@, pos as int, lw) {
                            lemma_layout_at_inv(data@, pos as int, lw);
                            assert(false);
                        }
                    }
                }
                return Err(SchemaParseError::Truncated);
            }
            let count = data[pos + 1];
            if count == 0 {
                proof {
                    assert forall|lw: LayoutV| !layout_at(data@, pos as int, lw) by {
                        if layout_at(data@, pos as int, lw) {
                            lemma_layout_at_inv(data@, pos as int, lw);
                            assert(lw->Union_0.len() >= 1);
                            assert(false);
                        }
                    }
                }
                return Err(SchemaParseError::Malformed);
            }
            let (vs, newpos) = match parse_layout_fields(data, pos + 2, count) {
                Ok(p) => p,
                Err(e) => {
                    proof {
                        assert forall|lw: LayoutV| !layout_at(data@, pos as int, lw) by {
                            if layout_at(data@, pos as int, lw) {
                                lemma_layout_at_inv(data@, pos as int, lw);
                                let vsw = lw->Union_0;
                                assert(vsw.len() == count && fields_at(data@, pos + 2, vsw));
                                assert(false);
                            }
                        }
                    }
                    return Err(e);
                },
            };
            if !check_distinct(&vs) {
                proof {
                    assert forall|lw: LayoutV| !layout_at(data@, pos as int, lw) by {
                        if layout_at(data@, pos as int, lw) {
                            lemma_layout_at_inv(data@, pos as int, lw);
                            let vsw = lw->Union_0;
                            assert(vsw.len() == count && fields_at(data@, pos + 2, vsw));
                            assert(field_views_of(vs@) == vsw);
                            assert(false);
                        }
                    }
                }
                return Err(SchemaParseError::Malformed);
            }
            let ghost vsv = field_views_of(vs@);
            let l = TypeLayout::Union(vs);
            proof {
                assert(layout_bytes(l@) =~= data@.subrange(pos as int, newpos as int));
                assert forall|lw: LayoutV| layout_at(data@, pos as int, lw) implies lw == l@ && pos
                    + layout_bytes(lw).len() == newpos by {
                    lemma_layout_at_inv(data@, pos as int, lw);
                    let vsw = lw->Union_0;
                    assert(vsw.len() == count && fields_at(data@, pos + 2, vsw));
                    assert(vsv == vsw);
                    assert(lw == LayoutV::Union(vsw));
                    assert(l@ =~= lw);
                }
            }
            Ok((l, newpos))
        },
        _ => {
            proof {
                assert forall|lw: LayoutV| !layout_at(data@, pos as int, lw) by {
                    if layout_at(data@, pos as int, lw) {
                        lemma_layout_at_inv(data@, pos as int, lw);
                        assert(false);
                    }
                }
            }
            Err(SchemaParseError::Malformed)
        },
    }
}

/// Parses `count` named fields, each a name and a layout.  Success is
/// owed wherever a `count`-field list's serialization begins at `pos`.
#[verifier::rlimit(100)]
#[verifier::spinoff_prover]
fn parse_layout_fields(data: &Vec<u8>, pos: usize, count: u8) -> (r: Result<
    (Vec<(Vec<char>, TypeLayout)>, usize),
    SchemaParseError,
>)
    requires
        pos <= data@.len(),
    ensures
        match r {
            Ok((fs, newpos)) => pos <= newpos <= data@.len() && fs@.len() == count && wf_fields(
                field_views_of(fs@),
            ) && representable_fields(field_views_of(fs@)) && field_views_of(fs@).len() == count
                && lfields_bytes(field_views_of(fs@)) == data@.subrange(pos as int, newpos as int),
            Err(e) => e != SchemaParseError::UnsupportedVersion && e
                != SchemaParseError::TrailingBytes && e != SchemaParseError::InvalidBase64,
        },
        forall|fw: Seq<(Seq<char>, LayoutV)>|
            fw.len() == count && fields_at(data@, pos as int, fw) ==> (r matches Ok(p)
                && field_views_of(p.0@) == fw && p.1 == pos + lfields_bytes(fw).len()),
    decreases data@.len() - pos, 2nat,
{
    let mut fs: Vec<(Vec<char>, TypeLayout)> = Vec::new();
    let mut cur: usize = pos;
    let mut i: u8 = 0;
    proof {
        lemma_field_views_of(fs@);
        assert(lfields_bytes(field_views_of(fs@)) =~= data@.subrange(pos as int, pos as int));
        assert forall|fw: Seq<(Seq<char>, LayoutV)>|
            fw.len() == count && fields_at(data@, pos as int, fw) implies field_views_of(fs@)
            == fw.take(0) && cur == pos + lfields_bytes(fw.take(0)).len() by {
            assert(field_views_of(fs@) =~= fw.take(0));
            assert(lfields_bytes(fw.take(0)) =~= Seq::<u8>::empty());
        }
    }
    while i < count
        invariant
            i <= count,
            pos <= cur <= data@.len(),
            fs@.len() == i,
            wf_fields(field_views_of(fs@)),
            representable_fields(field_views_of(fs@)),
            field_views_of(fs@).len() == i,
            lfields_bytes(field_views_of(fs@)) == data@.subrange(pos as int, cur as int),
            forall|fw: Seq<(Seq<char>, LayoutV)>|
                fw.len() == count && fields_at(data@, pos as int, fw) ==> field_views_of(fs@)
                    == fw.take(i as int) && cur == pos + lfields_bytes(fw.take(i as int)).len(),
        decreases count - i,
    {
        let ghost pre = fs@;
        let (name, mid) = match parse_name(data, cur) {
            Ok(p) => p,
            Err(e) => {
                proof {
                    assert forall|fw: Seq<(Seq<char>, LayoutV)>|
                        !(fw.len() == count && fields_at(data@, pos as int, fw)) by {
                        if fw.len() == count && fields_at(data@, pos as int, fw) {
                            lemma_fields_at_index(data@, pos as int, fw, i as int);
                            assert(name_at(data@, cur as int, fw[i as int].0));
                            assert(false);
                        }
                    }
                }
                return Err(e);
            },
        };
        if mid >= data.len() {
            proof {
                assert forall|fw: Seq<(Seq<char>, LayoutV)>|
                    !(fw.len() == count && fields_at(data@, pos as int, fw)) by {
                    if fw.len() == count && fields_at(data@, pos as int, fw) {
                        lemma_fields_at_index(data@, pos as int, fw, i as int);
                        assert(name_at(data@, cur as int, fw[i as int].0));
                        assert(mid == cur + name_bytes(fw[i as int].0).len());
                        lemma_layout_bytes_len(fw[i as int].1);
                        assert(layout_at(data@, mid as int, fw[i as int].1));
                        assert(false);
                    }
                }
            }
            return Err(SchemaParseError::Truncated);
        }
        let (l, newpos) = match parse_layout(data, mid) {
            Ok(p) => p,
            Err(e) => {
                proof {
                    assert forall|fw: Seq<(Seq<char>, LayoutV)>|
                        !(fw.len() == count && fields_at(data@, pos as int, fw)) by {
                        if fw.len() == count && fields_at(data@, pos as int, fw) {
                            lemma_fields_at_index(data@, pos as int, fw, i as int);
                            assert(name_at(data@, cur as int, fw[i as int].0));
                            assert(mid == cur + name_bytes(fw[i as int].0).len());
                            assert(layout_at(data@, mid as int, fw[i as int].1));
                            assert(false);
                        }
                    }
                }
                return Err(e);
            },
        };
        let ghost namev = name@;
        let ghost lv = l@;
        fs.push((name, l));
        proof {
            lemma_field_views_of(fs@);
            lemma_field_views_of(pre);
            lemma_lfields_bytes_append(field_views_of(pre), seq![(namev, lv)]);
            assert(fs@[i as int] == (fs@[i as int].0, fs@[i as int].1));
            assert(field_views_of(fs@).len() == fs@.len());
            assert forall|k: int| 0 <= k < fs@.len() implies field_views_of(fs@)[k] == (
            field_views_of(pre) + seq![(namev, lv)])[k] by {
                assert(field_views_of(fs@)[k] == (fs@[k].0@, fs@[k].1@));
                if k < i as int {
                    assert(pre[k] == fs@[k]);
                    assert(field_views_of(pre)[k] == (pre[k].0@, pre[k].1@));
                }
            }
            assert(field_views_of(fs@) =~= field_views_of(pre) + seq![(namev, lv)]);
            assert(seq![(namev, lv)].drop_first().len() == 0);
            assert(lfields_bytes(seq![(namev, lv)].drop_first()) =~= Seq::<u8>::empty());
            assert(lfields_bytes(seq![(namev, lv)]) =~= name_bytes(namev) + layout_bytes(lv));
            assert(data@.subrange(cur as int, newpos as int) =~= data@.subrange(
                cur as int,
                mid as int,
            ) + data@.subrange(mid as int, newpos as int));
            assert(data@.subrange(pos as int, newpos as int) =~= data@.subrange(
                pos as int,
                cur as int,
            ) + data@.subrange(cur as int, newpos as int));
            assert(lfields_bytes(field_views_of(fs@)) =~= data@.subrange(
                pos as int,
                newpos as int,
            ));
            lemma_wf_fields_push(field_views_of(pre), (namev, lv));
            lemma_repr_fields_push(field_views_of(pre), (namev, lv));
            assert(field_views_of(pre).push((namev, lv)) =~= field_views_of(pre) + seq![
                (namev, lv),
            ]);
            assert(wf_fields(field_views_of(fs@)));
            assert(representable_fields(field_views_of(fs@)));
            assert forall|fw: Seq<(Seq<char>, LayoutV)>|
                fw.len() == count && fields_at(data@, pos as int, fw) implies field_views_of(fs@)
                == fw.take(i + 1) && newpos == pos + lfields_bytes(fw.take(i + 1)).len() by {
                lemma_fields_at_index(data@, pos as int, fw, i as int);
                assert(name_at(data@, cur as int, fw[i as int].0));
                assert(namev == fw[i as int].0 && mid == cur + name_bytes(fw[i as int].0).len());
                assert(layout_at(data@, mid as int, fw[i as int].1));
                assert(lv == fw[i as int].1 && newpos == mid + layout_bytes(
                    fw[i as int].1,
                ).len());
                assert((namev, lv) == fw[i as int]);
                assert(field_views_of(pre) == fw.take(i as int));
                assert(field_views_of(fs@) =~= fw.take(i as int).push(fw[i as int]));
                assert(fw.take(i + 1) == fw.take(i as int).push(fw[i as int]));
            }
        }
        cur = newpos;
        i = i + 1;
    }
    proof {
        assert forall|fw: Seq<(Seq<char>, LayoutV)>|
            fw.len() == count && fields_at(data@, pos as int, fw) implies field_views_of(fs@)
            == fw && cur == pos + lfields_bytes(fw).len() by {
            assert(fw.take(count as int) =~= fw);
        }
    }
    Ok((fs, cur))
}

/// Pushing a well-formed field keeps the run well formed.
pub open spec fn wf_fields_push(fs: Seq<(Seq<char>, LayoutV)>, f: (Seq<char>, LayoutV)) -> bool {
    wf_fields(fs.push(f)) == (wf_fields(fs) && wf_layout(f.1))
}

proof fn lemma_wf_fields_push(fs: Seq<(Seq<char>, LayoutV)>, f: (Seq<char>, LayoutV))
    ensures
        wf_fields_push(fs, f),
    decreases fs,
{
    if fs.len() == 0 {
        assert(fs.push(f)[0] == f);
        assert(fs.push(f).drop_first() =~= fs);
    } else {
        lemma_wf_fields_push(fs.drop_first(), f);
        assert(fs.push(f)[0] == fs[0]);
        assert(fs.push(f).drop_first() =~= fs.drop_first().push(f));
    }
}

/// Splitting a field run splits its serialized bytes.
proof fn lemma_lfields_bytes_append(a: Seq<(Seq<char>, LayoutV)>, b: Seq<(Seq<char>, LayoutV)>)
    ensures
        lfields_bytes(a + b) == lfields_bytes(a) + lfields_bytes(b),
        wf_fields(a + b) == (wf_fields(a) && wf_fields(b)),
        representable_fields(a + b) == (representable_fields(a) && representable_fields(b)),
    decreases a,
{
    if a.len() == 0 {
        assert(a + b =~= b);
        assert(lfields_bytes(a) + lfields_bytes(b) =~= lfields_bytes(b));
    } else {
        lemma_lfields_bytes_append(a.drop_first(), b);
        assert((a + b).drop_first() =~= a.drop_first() + b);
        assert((a + b)[0] == a[0]);
        assert(lfields_bytes(a + b) =~= lfields_bytes(a) + lfields_bytes(b));
    }
}

/// Splitting a method run splits its serialized bytes and its
/// well-formedness.
proof fn lemma_methods_bytes_append(a: Seq<MethodV>, b: Seq<MethodV>)
    ensures
        methods_bytes(a + b) == methods_bytes(a) + methods_bytes(b),
        wf_methods(a + b) == (wf_methods(a) && wf_methods(b)),
        representable_methods(a + b) == (representable_methods(a) && representable_methods(b)),
    decreases a,
{
    if a.len() == 0 {
        assert(a + b =~= b);
        assert(methods_bytes(a) + methods_bytes(b) =~= methods_bytes(b));
    } else {
        lemma_methods_bytes_append(a.drop_first(), b);
        assert((a + b).drop_first() =~= a.drop_first() + b);
        assert((a + b)[0] == a[0]);
        assert(methods_bytes(a + b) =~= methods_bytes(a) + methods_bytes(b));
    }
}

/// Splitting a module run splits its serialized bytes and its
/// well-formedness.
proof fn lemma_modules_bytes_append(a: Seq<ModuleV>, b: Seq<ModuleV>)
    ensures
        modules_bytes(a + b) == modules_bytes(a) + modules_bytes(b),
        wf_modules(a + b) == (wf_modules(a) && wf_modules(b)),
        representable_modules(a + b) == (representable_modules(a) && representable_modules(b)),
    decreases a,
{
    if a.len() == 0 {
        assert(a + b =~= b);
        assert(modules_bytes(a) + modules_bytes(b) =~= modules_bytes(b));
    } else {
        lemma_modules_bytes_append(a.drop_first(), b);
        assert((a + b).drop_first() =~= a.drop_first() + b);
        assert((a + b)[0] == a[0]);
        assert(modules_bytes(a + b) =~= modules_bytes(a) + modules_bytes(b));
    }
}

/// What a method whose serialization occupies `data` from `pos` must
/// look like: its name, its flag byte, and its layouts in order.
proof fn lemma_method_at_inv(data: Seq<u8>, pos: int, m: MethodV)
    requires
        method_at(data, pos, m),
    ensures
        name_at(data, pos, m.name),
        pos + name_bytes(m.name).len() < data.len(),
        data[pos + name_bytes(m.name).len()] == (if m.ret is Some {
            1u8
        } else {
            0u8
        }),
        layout_at(data, pos + name_bytes(m.name).len() + 1, m.param),
        m.ret matches Some(rl) ==> layout_at(
            data,
            pos + name_bytes(m.name).len() + 1 + layout_bytes(m.param).len(),
            rl,
        ) && method_bytes(m).len() == name_bytes(m.name).len() + 1 + layout_bytes(m.param).len()
            + layout_bytes(rl).len(),
        m.ret is None ==> method_bytes(m).len() == name_bytes(m.name).len() + 1 + layout_bytes(
            m.param,
        ).len(),
{
    let nb = name_bytes(m.name);
    let pb = layout_bytes(m.param);
    let mb = method_bytes(m);
    lemma_layout_bytes_len(m.param);
    assert forall|k: int| 0 <= k < nb.len() implies data.subrange(pos, pos + nb.len())[k]
        == nb[k] by {
        assert(data.subrange(pos, pos + mb.len())[k] == mb[k]);
        assert(data.subrange(pos, pos + mb.len())[k] == data[pos + k]);
        assert(data.subrange(pos, pos + nb.len())[k] == data[pos + k]);
        assert(mb[k] == nb[k]);
    }
    assert(data.subrange(pos, pos + nb.len()) =~= nb);
    assert(data.subrange(pos, pos + mb.len())[nb.len() as int] == mb[nb.len() as int]);
    assert(data.subrange(pos, pos + mb.len())[nb.len() as int] == data[pos + nb.len()]);
    let off = pos + nb.len() + 1;
    assert forall|k: int| 0 <= k < pb.len() implies data.subrange(off, off + pb.len())[k]
        == pb[k] by {
        assert(data.subrange(pos, pos + mb.len())[off - pos + k] == mb[off - pos + k]);
        assert(data.subrange(pos, pos + mb.len())[off - pos + k] == data[pos + (off - pos + k)]);
        assert(data.subrange(off, off + pb.len())[k] == data[off + k]);
        assert(mb[off - pos + k] == pb[k]);
    }
    assert(data.subrange(off, off + pb.len()) =~= pb);
    match m.ret {
        Some(rl) => {
            lemma_layout_bytes_len(rl);
            let rb = layout_bytes(rl);
            let off2 = off + pb.len();
            assert forall|k: int| 0 <= k < rb.len() implies data.subrange(
                off2,
                off2 + rb.len(),
            )[k] == rb[k] by {
                assert(data.subrange(pos, pos + mb.len())[off2 - pos + k] == mb[off2 - pos + k]);
                assert(data.subrange(pos, pos + mb.len())[off2 - pos + k] == data[pos + (off2 - pos
                    + k)]);
                assert(data.subrange(off2, off2 + rb.len())[k] == data[off2 + k]);
                assert(mb[off2 - pos + k] == rb[k]);
            }
            assert(data.subrange(off2, off2 + rb.len()) =~= rb);
        },
        None => {},
    }
}

/// Where a method list's serialization occupies `data`, method `i`
/// occupies its own stretch, right after the methods before it.
proof fn lemma_methods_at_index(data: Seq<u8>, pos: int, ms: Seq<MethodV>, i: int)
    requires
        methods_at(data, pos, ms),
        0 <= i < ms.len(),
    ensures
        method_at(data, pos + methods_bytes(ms.take(i)).len(), ms[i]),
        methods_bytes(ms.take(i + 1)).len() == methods_bytes(ms.take(i)).len() + method_bytes(
            ms[i],
        ).len(),
        ms.take(i + 1) == ms.take(i).push(ms[i]),
{
    let a = ms.take(i);
    let rest = ms.skip(i);
    assert(ms =~= a + rest);
    lemma_methods_bytes_append(a, rest);
    assert(rest[0] == ms[i]);
    assert(methods_bytes(rest) == method_bytes(ms[i]) + methods_bytes(rest.drop_first()));
    let off = pos + methods_bytes(a).len();
    let mb = method_bytes(ms[i]);
    assert forall|k: int| 0 <= k < mb.len() implies data.subrange(off, off + mb.len())[k]
        == mb[k] by {
        assert(data.subrange(pos, pos + methods_bytes(ms).len())[off - pos + k]
            == methods_bytes(ms)[off - pos + k]);
        assert(data.subrange(pos, pos + methods_bytes(ms).len())[off - pos + k] == data[pos + (off
            - pos + k)]);
        assert(data.subrange(off, off + mb.len())[k] == data[off + k]);
        assert(methods_bytes(ms)[off - pos + k] == methods_bytes(rest)[k]);
        assert(methods_bytes(rest)[k] == mb[k]);
    }
    assert(data.subrange(off, off + mb.len()) =~= mb);
    assert(a + seq![ms[i]] =~= ms.take(i + 1));
    lemma_methods_bytes_append(a, seq![ms[i]]);
    assert(seq![ms[i]].drop_first().len() == 0);
    assert(methods_bytes(seq![ms[i]].drop_first()) =~= Seq::<u8>::empty());
    assert(methods_bytes(seq![ms[i]]) =~= mb);
    assert(ms.take(i + 1) =~= a.push(ms[i]));
}

/// What a module whose serialization occupies `data` from `pos` must
/// look like: its name, its method count byte, then its methods.
proof fn lemma_module_at_inv(data: Seq<u8>, pos: int, m: ModuleV)
    requires
        module_at(data, pos, m),
    ensures
        name_at(data, pos, m.name),
        pos + name_bytes(m.name).len() < data.len(),
        data[pos + name_bytes(m.name).len()] == m.methods.len() as u8,
        m.methods.len() <= 255,
        methods_at(data, pos + name_bytes(m.name).len() + 1, m.methods),
        module_bytes(m).len() == name_bytes(m.name).len() + 1 + methods_bytes(m.methods).len(),
{
    let nb = name_bytes(m.name);
    let hb = methods_bytes(m.methods);
    let mb = module_bytes(m);
    assert(mb == nb + seq![m.methods.len() as u8] + hb);
    assert forall|k: int| 0 <= k < nb.len() implies data.subrange(pos, pos + nb.len())[k]
        == nb[k] by {
        assert(data.subrange(pos, pos + mb.len())[k] == mb[k]);
        assert(data.subrange(pos, pos + mb.len())[k] == data[pos + k]);
        assert(data.subrange(pos, pos + nb.len())[k] == data[pos + k]);
        assert(mb[k] == nb[k]);
    }
    assert(data.subrange(pos, pos + nb.len()) =~= nb);
    assert(data.subrange(pos, pos + mb.len())[nb.len() as int] == mb[nb.len() as int]);
    assert(data.subrange(pos, pos + mb.len())[nb.len() as int] == data[pos + nb.len()]);
    let off = pos + nb.len() + 1;
    assert forall|k: int| 0 <= k < hb.len() implies data.subrange(off, off + hb.len())[k]
        == hb[k] by {
        assert(data.subrange(pos, pos + mb.len())[off - pos + k] == mb[off - pos + k]);
        assert(data.subrange(pos, pos + mb.len())[off - pos + k] == data[pos + (off - pos + k)]);
        assert(data.subrange(off, off + hb.len())[k] == data[off + k]);
        assert(mb[off - pos + k] == hb[k]);
    }
    assert(data.subrange(off, off + hb.len()) =~= hb);
}

/// Where a module list's serialization occupies `data`, module `i`
/// occupies its own stretch, right after the modules before it.
proof fn lemma_modules_at_index(data: Seq<u8>, pos: int, ms: Seq<ModuleV>, i: int)
    requires
        modules_at(data, pos, ms),
        0 <= i < ms.len(),
    ensures
        module_at(data, pos + modules_bytes(ms.take(i)).len(), ms[i]),
        modules_bytes(ms.take(i + 1)).len() == modules_bytes(ms.take(i)).len() + module_bytes(
            ms[i],
        ).len(),
        ms.take(i + 1) == ms.take(i).push(ms[i]),
{
    let a = ms.take(i);
    let rest = ms.skip(i);
    assert(ms =~= a + rest);
    lemma_modules_bytes_append(a, rest);
    assert(rest[0] == ms[i]);
    assert(modules_bytes(rest) == module_bytes(ms[i]) + modules_bytes(rest.drop_first()));
    let off = pos + modules_bytes(a).len();
    let mb = module_bytes(ms[i]);
    assert forall|k: int| 0 <= k < mb.len() implies data.subrange(off, off + mb.len())[k]
        == mb[k] by {
        assert(data.subrange(pos, pos + modules_bytes(ms).len())[off - pos + k]
            == modules_bytes(ms)[off - pos + k]);
        assert(data.subrange(pos, pos + modules_bytes(ms).len())[off - pos + k] == data[pos + (off
            - pos + k)]);
        assert(data.subrange(off, off + mb.len())[k] == data[off + k]);
        assert(modules_bytes(ms)[off - pos + k] == modules_bytes(rest)[k]);
        assert(modules_bytes(rest)[k] == mb[k]);
    }
    assert(data.subrange(off, off + mb.len()) =~= mb);
    assert(a + seq![ms[i]] =~= ms.take(i + 1));
    lemma_modules_bytes_append(a, seq![ms[i]]);
    assert(seq![ms[i]].drop_first().len() == 0);
    assert(modules_bytes(seq![ms[i]].drop_first()) =~= Seq::<u8>::empty());
    assert(modules_bytes(seq![ms[i]]) =~= mb);
    assert(ms.take(i + 1) =~= a.push(ms[i]));
}

/// Parses one method.  Success is owed wherever a method's serialization
/// begins at `pos`.
#[verifier::rlimit(100)]
#[verifier::spinoff_prover]
fn parse_method(data: &Vec<u8>, pos: usize) -> (r: Result<(MethodSchema, usize), SchemaParseError>)
    requires
        pos <= data@.len(),
    ensures
        match r {
            Ok((m, newpos)) => pos < newpos <= data@.len() && wf_layout(m@.param) && (
            match m@.ret {
                Some(rl) => wf_layout(rl),
                None => true,
            }) && representable_method(m@) && method_bytes(m@) == data@.subrange(
                pos as int,
                newpos as int,
            ),
            Err(e) => e != SchemaParseError::UnsupportedVersion && e
                != SchemaParseError::TrailingBytes && e != SchemaParseError::InvalidBase64,
        },
        forall|mw: MethodV|
            method_at(data@, pos as int, mw) ==> (r matches Ok(p) && p.0@ == mw && p.1 == pos
                + method_bytes(mw).len()),
{
    let (name, mid) = match parse_name(data, pos) {
        Ok(p) => p,
        Err(e) => {
            proof {
                assert forall|mw: MethodV| !method_at(data@, pos as int, mw) by {
                    if method_at(data@, pos as int, mw) {
                        lemma_method_at_inv(data@, pos as int, mw);
                        assert(name_at(data@, pos as int, mw.name));
                        assert(false);
                    }
                }
            }
            return Err(e);
        },
    };
    let ghost namev = name@;
    if mid >= data.len() {
        proof {
            assert forall|mw: MethodV| !method_at(data@, pos as int, mw) by {
                if method_at(data@, pos as int, mw) {
                    lemma_method_at_inv(data@, pos as int, mw);
                    assert(name_at(data@, pos as int, mw.name));
                    assert(mid == pos + name_bytes(mw.name).len());
                    assert(false);
                }
            }
        }
        return Err(SchemaParseError::Truncated);
    }
    let flag = data[mid];
    if flag != 0 && flag != 1 {
        proof {
            assert forall|mw: MethodV| !method_at(data@, pos as int, mw) by {
                if method_at(data@, pos as int, mw) {
                    lemma_method_at_inv(data@, pos as int, mw);
                    assert(name_at(data@, pos as int, mw.name));
                    assert(mid == pos + name_bytes(mw.name).len());
                    assert(false);
                }
            }
        }
        return Err(SchemaParseError::Malformed);
    }
    let (param, p2) = match parse_layout(data, mid + 1) {
        Ok(p) => p,
        Err(e) => {
            proof {
                assert forall|mw: MethodV| !method_at(data@, pos as int, mw) by {
                    if method_at(data@, pos as int, mw) {
                        lemma_method_at_inv(data@, pos as int, mw);
                        assert(name_at(data@, pos as int, mw.name));
                        assert(mid == pos + name_bytes(mw.name).len());
                        assert(layout_at(data@, mid + 1, mw.param));
                        assert(false);
                    }
                }
            }
            return Err(e);
        },
    };
    let ghost paramv = param@;
    if flag == 0 {
        let m = MethodSchema { name, param, ret: None };
        proof {
            assert(data@.subrange(mid as int, mid + 1) =~= seq![flag]);
            assert(method_bytes(m@) =~= data@.subrange(pos as int, p2 as int));
            assert forall|mw: MethodV| method_at(data@, pos as int, mw) implies m@ == mw && pos
                + method_bytes(mw).len() == p2 by {
                lemma_method_at_inv(data@, pos as int, mw);
                assert(name_at(data@, pos as int, mw.name));
                assert(namev == mw.name && mid == pos + name_bytes(mw.name).len());
                assert(mw.ret is None);
                assert(layout_at(data@, mid + 1, mw.param));
                assert(paramv == mw.param && p2 == mid + 1 + layout_bytes(mw.param).len());
                assert(m@ =~= mw);
            }
        }
        return Ok((m, p2));
    }
    if p2 >= data.len() {
        let probe = parse_layout(data, p2);
        match probe {
            Ok(_) => {},
            Err(e) => {
                proof {
                    assert forall|mw: MethodV| !method_at(data@, pos as int, mw) by {
                        if method_at(data@, pos as int, mw) {
                            lemma_method_at_inv(data@, pos as int, mw);
                            assert(name_at(data@, pos as int, mw.name));
                            assert(mid == pos + name_bytes(mw.name).len());
                            assert(mw.ret is Some);
                            assert(layout_at(data@, mid + 1, mw.param));
                            assert(p2 == mid + 1 + layout_bytes(mw.param).len());
                            assert(layout_at(data@, p2 as int, mw.ret->Some_0));
                            assert(false);
                        }
                    }
                }
                return Err(e);
            },
        }
    }
    let (retl, p3) = match parse_layout(data, p2) {
        Ok(p) => p,
        Err(e) => {
            proof {
                assert forall|mw: MethodV| !method_at(data@, pos as int, mw) by {
                    if method_at(data@, pos as int, mw) {
                        lemma_method_at_inv(data@, pos as int, mw);
                        assert(name_at(data@, pos as int, mw.name));
                        assert(mid == pos + name_bytes(mw.name).len());
                        assert(mw.ret is Some);
                        assert(layout_at(data@, mid + 1, mw.param));
                        assert(p2 == mid + 1 + layout_bytes(mw.param).len());
                        assert(layout_at(data@, p2 as int, mw.ret->Some_0));
                        assert(false);
                    }
                }
            }
            return Err(e);
        },
    };
    let ghost retlv = retl@;
    let m = MethodSchema { name, param, ret: Some(retl) };
    proof {
        assert(data@.subrange(mid as int, mid + 1) =~= seq![flag]);
        assert(method_bytes(m@) =~= data@.subrange(pos as int, p3 as int));
        assert forall|mw: MethodV| method_at(data@, pos as int, mw) implies m@ == mw && pos
            + method_bytes(mw).len() == p3 by {
            lemma_method_at_inv(data@, pos as int, mw);
            assert(name_at(data@, pos as int, mw.name));
            assert(namev == mw.name && mid == pos + name_bytes(mw.name).len());
            assert(mw.ret is Some);
            assert(layout_at(data@, mid + 1, mw.param));
            assert(paramv == mw.param && p2 == mid + 1 + layout_bytes(mw.param).len());
            assert(layout_at(data@, p2 as int, mw.ret->Some_0));
            assert(retlv == mw.ret->Some_0 && p3 == p2 + layout_bytes(mw.ret->Some_0).len());
            assert(m@ =~= mw);
        }
    }
    Ok((m, p3))
}

/// Parses a module: name, method count, methods.  Success is owed
/// wherever a module's serialization begins at `pos`.
#[verifier::rlimit(100)]
#[verifier::spinoff_prover]
fn parse_module(data: &Vec<u8>, pos: usize) -> (r: Result<(ModuleSchema, usize), SchemaParseError>)
    requires
        pos <= data@.len(),
    ensures
        match r {
            Ok((m, newpos)) => pos < newpos <= data@.len() && wf_methods(m@.methods)
                && representable_module(m@) && module_bytes(m@) == data@.subrange(
                pos as int,
                newpos as int,
            ),
            Err(e) => e != SchemaParseError::UnsupportedVersion && e
                != SchemaParseError::TrailingBytes && e != SchemaParseError::InvalidBase64,
        },
        forall|mw: ModuleV|
            module_at(data@, pos as int, mw) ==> (r matches Ok(p) && p.0@ == mw && p.1 == pos
                + module_bytes(mw).len()),
{
    let (name, mid) = match parse_name(data, pos) {
        Ok(p) => p,
        Err(e) => {
            proof {
                assert forall|mw: ModuleV| !module_at(data@, pos as int, mw) by {
                    if module_at(data@, pos as int, mw) {
                        lemma_module_at_inv(data@, pos as int, mw);
                        assert(name_at(data@, pos as int, mw.name));
                        assert(false);
                    }
                }
            }
            return Err(e);
        },
    };
    let ghost namev = name@;
    if mid >= data.len() {
        proof {
            assert forall|mw: ModuleV| !module_at(data@, pos as int, mw) by {
                if module_at(data@, pos as int, mw) {
                    lemma_module_at_inv(data@, pos as int, mw);
                    assert(name_at(data@, pos as int, mw.name));
                    assert(mid == pos + name_bytes(mw.name).len());
                    assert(false);
                }
            }
        }
        return Err(SchemaParseError::Truncated);
    }
    let count = data[mid];
    proof {
        assert forall|mw: ModuleV| module_at(data@, pos as int, mw) implies namev == mw.name && mid
            == pos + name_bytes(mw.name).len() && count == mw.methods.len() && methods_at(
            data@,
            mid + 1,
            mw.methods,
        ) && module_bytes(mw).len() == name_bytes(mw.name).len() + 1 + methods_bytes(
            mw.methods,
        ).len() by {
            lemma_module_at_inv(data@, pos as int, mw);
            assert(name_at(data@, pos as int, mw.name));
        }
    }
    let mut methods: Vec<MethodSchema> = Vec::new();
    let mut cur: usize = mid + 1;
    let mut i: u8 = 0;
    proof {
        crate::schema::lemma_method_views_of(methods@);
        assert(methods_bytes(method_views_of(methods@)) =~= data@.subrange(
            mid + 1,
            mid + 1,
        ));
        assert forall|mw: ModuleV| module_at(data@, pos as int, mw) implies method_views_of(
            methods@,
        ) == mw.methods.take(0) && cur == mid + 1 + methods_bytes(mw.methods.take(0)).len() by {
            assert(method_views_of(methods@) =~= mw.methods.take(0));
            assert(methods_bytes(mw.methods.take(0)) =~= Seq::<u8>::empty());
        }
    }
    while i < count
        invariant
            i <= count,
            mid + 1 <= cur <= data@.len(),
            mid < data@.len(),
            methods@.len() == i,
            wf_methods(method_views_of(methods@)),
            representable_methods(method_views_of(methods@)),
            method_views_of(methods@).len() == i,
            methods_bytes(method_views_of(methods@)) == data@.subrange(mid + 1, cur as int),
            forall|mw: ModuleV|
                module_at(data@, pos as int, mw) ==> count == mw.methods.len() && methods_at(
                    data@,
                    mid + 1,
                    mw.methods,
                ) && method_views_of(methods@) == mw.methods.take(i as int) && cur == mid + 1
                    + methods_bytes(mw.methods.take(i as int)).len(),
        decreases count - i,
    {
        let ghost pre = methods@;
        let (m, newpos) = match parse_method(data, cur) {
            Ok(p) => p,
            Err(e) => {
                proof {
                    assert forall|mw: ModuleV| !module_at(data@, pos as int, mw) by {
                        if module_at(data@, pos as int, mw) {
                            lemma_methods_at_index(data@, mid + 1, mw.methods, i as int);
                            assert(method_at(data@, cur as int, mw.methods[i as int]));
                            assert(false);
                        }
                    }
                }
                return Err(e);
            },
        };
        let ghost mv = m@;
        methods.push(m);
        proof {
            crate::schema::lemma_method_views_of(methods@);
            crate::schema::lemma_method_views_of(pre);
            assert forall|k: int| 0 <= k < methods@.len() implies method_views_of(methods@)[k]
                == (method_views_of(pre) + seq![mv])[k] by {
                assert(method_views_of(methods@)[k] == methods@[k]@);
                if k < i as int {
                    assert(pre[k] == methods@[k]);
                    assert(method_views_of(pre)[k] == pre[k]@);
                }
            }
            assert(method_views_of(methods@) =~= method_views_of(pre) + seq![mv]);
            lemma_methods_bytes_append(method_views_of(pre), seq![mv]);
            assert(seq![mv].drop_first().len() == 0);
            assert(methods_bytes(seq![mv].drop_first()) =~= Seq::<u8>::empty());
            assert(methods_bytes(seq![mv]) =~= method_bytes(mv));
            assert(wf_methods(seq![mv].drop_first()));
            assert(wf_methods(seq![mv]));
            assert(representable_methods(seq![mv].drop_first()));
            assert(representable_methods(seq![mv]));
            assert(data@.subrange(mid + 1, newpos as int) =~= data@.subrange(mid + 1, cur as int)
                + data@.subrange(cur as int, newpos as int));
            assert(methods_bytes(method_views_of(methods@)) =~= data@.subrange(
                mid + 1,
                newpos as int,
            ));
            assert forall|mw: ModuleV| module_at(data@, pos as int, mw) implies method_views_of(
                methods@,
            ) == mw.methods.take(i + 1) && newpos == mid + 1 + methods_bytes(
                mw.methods.take(i + 1),
            ).len() by {
                lemma_methods_at_index(data@, mid + 1, mw.methods, i as int);
                assert(method_at(data@, cur as int, mw.methods[i as int]));
                assert(mv == mw.methods[i as int] && newpos == cur + method_bytes(
                    mw.methods[i as int],
                ).len());
                assert(method_views_of(pre) == mw.methods.take(i as int));
                assert(method_views_of(methods@) =~= mw.methods.take(i as int).push(
                    mw.methods[i as int],
                ));
                assert(mw.methods.take(i + 1) == mw.methods.take(i as int).push(
                    mw.methods[i as int],
                ));
            }
        }
        cur = newpos;
        i = i + 1;
    }
    let m = ModuleSchema { name, methods };
    proof {
        assert(data@.subrange(mid as int, mid + 1) =~= seq![count]);
        assert(module_bytes(m@) =~= data@.subrange(pos as int, cur as int));
        assert forall|mw: ModuleV| module_at(data@, pos as int, mw) implies m@ == mw && pos
            + module_bytes(mw).len() == cur by {
            assert(mw.methods.take(count as int) =~= mw.methods);
            assert(m@ =~= mw);
        }
    }
    Ok((m, cur))
}

/// Parses a versioned module schema from raw bytes.  The parser knows
/// major version 1 and rejects any other; a parsed schema is well formed
/// and serializes back to exactly the input bytes.  Success is owed: on
/// the serialization of any well-formed, representable schema, parsing
/// returns `Ok`.
#[verifier::rlimit(100)]
#[verifier::spinoff_prover]
pub fn parse_schema(data: &Vec<u8>) -> (r: Result<VersionedModuleSchema, SchemaParseError>)
    ensures
        match r {
            Ok(s) => wf_schema(s@) && schema_bytes(s@) == data@,
            Err(e) => e != SchemaParseError::InvalidBase64,
        },
        r matches Err(SchemaParseError::UnsupportedVersion) <==> (data@.len() >= 1 && data@[0]
            != 1),
        data@.len() == 0 ==> r == Err::<VersionedModuleSchema, SchemaParseError>(
            SchemaParseError::Truncated,
        ),
        (exists|sw: SchemaV|
            wf_schema(sw) && representable_schema(sw) && schema_bytes(sw) == data@) ==> r is Ok,
{
    let ghost ex = exists|sw: SchemaV|
        wf_schema(sw) && representable_schema(sw) && schema_bytes(sw) == data@;
    let ghost s0 = choose|sw: SchemaV|
        wf_schema(sw) && representable_schema(sw) && schema_bytes(sw) == data@;
    proof {
        if ex {
            assert(schema_bytes(s0) == data@);
            assert(data@.len() == 2 + modules_bytes(s0.modules).len());
            assert(data@[0] == schema_bytes(s0)[0]);
            assert(data@[1] == schema_bytes(s0)[1]);
            assert(data@[0] == 1u8 && data@[1] == s0.modules.len() as u8);
            assert forall|k: int| 0 <= k < modules_bytes(s0.modules).len() implies data@.subrange(
                2,
                2 + modules_bytes(s0.modules).len() as int,
            )[k] == modules_bytes(s0.modules)[k] by {
                assert(data@[2 + k] == schema_bytes(s0)[2 + k]);
                assert(schema_bytes(s0)[2 + k] == modules_bytes(s0.modules)[k]);
                assert(data@.subrange(2, 2 + modules_bytes(s0.modules).len() as int)[k] == data@[2 + k]);
            }
            assert(data@.subrange(2, 2 + modules_bytes(s0.modules).len() as int) =~= modules_bytes(
                s0.modules,
            ));
            assert(modules_at(data@, 2, s0.modules));
        }
    }
    if data.len() == 0 {
        proof {
            if ex {
                assert(false);
            }
        }
        return Err(SchemaParseError::Truncated);
    }
    if data[0] != 1 {
        proof {
            if ex {
                assert(false);
            }
        }
        return Err(SchemaParseError::UnsupportedVersion);
    }
    if data.len() < 2 {
        proof {
            if ex {
                assert(false);
            }
        }
        return Err(SchemaParseError::Truncated);
    }
    let count = data[1];
    proof {
        if ex {
            assert(count == s0.modules.len());
        }
    }
    let mut modules: Vec<ModuleSchema> = Vec::new();
    let mut cur: usize = 2;
    let mut i: u8 = 0;
    proof {
        crate::schema::lemma_module_views_of(modules@);
        assert(modules_bytes(module_views_of(modules@)) =~= data@.subrange(2, 2));
        if ex {
            assert(module_views_of(modules@) =~= s0.modules.take(0));
            assert(modules_bytes(s0.modules.take(0)) =~= Seq::<u8>::empty());
        }
    }
    while i < count
        invariant
            i <= count,
            2 <= cur <= data@.len(),
            data@.len() >= 2 && data@[0] == 1 && data@[1] == count,
            modules@.len() == i,
            wf_modules(module_views_of(modules@)),
            module_views_of(modules@).len() == i,
            modules_bytes(module_views_of(modules@)) == data@.subrange(2, cur as int),
            ex == exists|sw: SchemaV|
                wf_schema(sw) && representable_schema(sw) && schema_bytes(sw) == data@,
            ex ==> count == s0.modules.len() && modules_at(data@, 2, s0.modules)
                && data@.len() == 2 + modules_bytes(s0.modules).len() && module_views_of(modules@)
                == s0.modules.take(i as int) && cur == 2 + modules_bytes(
                s0.modules.take(i as int),
            ).len(),
        decreases count - i,
    {
        let ghost pre = modules@;
        let (m, newpos) = match parse_module(data, cur) {
            Ok(p) => p,
            Err(e) => {
                proof {
                    if ex {
                        lemma_modules_at_index(data@, 2, s0.modules, i as int);
                        assert(module_at(data@, cur as int, s0.modules[i as int]));
                        assert(false);
                    }
                }
                return Err(e);
            },
        };
        let ghost mv = m@;
        modules.push(m);
        proof {
            crate::schema::lemma_module_views_of(modules@);
            crate::schema::lemma_module_views_of(pre);
            assert forall|k: int| 0 <= k < modules@.len() implies module_views_of(modules@)[k]
                == (module_views_of(pre) + seq![mv])[k] by {
                assert(module_views_of(modules@)[k] == modules@[k]@);
                if k < i as int {
                    assert(pre[k] == modules@[k]);
                    assert(module_views_of(pre)[k] == pre[k]@);
                }
            }
            assert(module_views_of(modules@) =~= module_views_of(pre) + seq![mv]);
            lemma_modules_bytes_append(module_views_of(pre), seq![mv]);
            assert(seq![mv].drop_first().len() == 0);
            assert(modules_bytes(seq![mv].drop_first()) =~= Seq::<u8>::empty());
            assert(modules_bytes(seq![mv]) =~= module_bytes(mv));
            assert(wf_modules(seq![mv].drop_first()));
            assert(wf_modules(seq![mv]));
            assert(data@.subrange(2, newpos as int) =~= data@.subrange(2, cur as int)
                + data@.subrange(cur as int, newpos as int));
            assert(modules_bytes(module_views_of(modules@)) =~= data@.subrange(
                2,
                newpos as int,
            ));
            if ex {
                lemma_modules_at_index(data@, 2, s0.modules, i as int);
                assert(module_at(data@, cur as int, s0.modules[i as int]));
                assert(mv == s0.modules[i as int] && newpos == cur + module_bytes(
                    s0.modules[i as int],
                ).len());
                assert(module_views_of(pre) == s0.modules.take(i as int));
                assert(module_views_of(modules@) =~= s0.modules.take(i as int).push(
                    s0.modules[i as int],
                ));
                assert(s0.modules.take(i + 1) == s0.modules.take(i as int).push(
                    s0.modules[i as int],
                ));
            }
        }
        cur = newpos;
        i = i + 1;
    }
    if cur != data.len() {
        proof {
            if ex {
                assert(s0.modules.take(count as int) =~= s0.modules);
                assert(cur == 2 + modules_bytes(s0.modules).len());
                assert(false);
            }
        }
        return Err(SchemaParseError::TrailingBytes);
    }
    let s = VersionedModuleSchema { modules };
    proof {
        assert(data@.subrange(0, 2) =~= seq![1u8, count]);
        assert(data@ =~= data@.subrange(0, 2) + data@.subrange(2, data@.len() as int));
        assert(schema_bytes(s@) =~= data@);
    }
    Ok(s)
}

/// What base64 text with the standard alphabet and no padding decodes
/// to, if anything; the result depends on the text alone.
pub uninterp spec fn base64_decoded(s: Seq<u8>) -> Option<Seq<u8>>;

/// Relies on base64's `Engine::decode` with the `STANDARD_NO_PAD` engine:
/// it decodes valid unpadded standard-alphabet text and rejects all other
/// input, as a function of the text alone.
#[verifier::external_body]
fn base64_decode(data: &Vec<u8>) -> (r: Option<Vec<u8>>)
    ensures
        match r {
            Some(v) => base64_decoded(data@) == Some(v@),
            None => base64_decoded(data@) is None,
        },
{
    base64::Engine::decode(&base64::engine::general_purpose::STANDARD_NO_PAD, data.as_slice()).ok()
}

/// Parses a schema whose bytes arrive base64-encoded, as schema files
/// commonly do.
pub fn parse_schema_base64(text: &Vec<u8>) -> (r: Result<VersionedModuleSchema, SchemaParseError>)
    ensures
        match base64_decoded(text@) {
            None => r == Err::<VersionedModuleSchema, SchemaParseError>(
                SchemaParseError::InvalidBase64,
            ),
            Some(bytes) => (match r {
                Ok(s) => wf_schema(s@) && schema_bytes(s@) == bytes,
                Err(e) => e != SchemaParseError::InvalidBase64,
            }) && (r matches Err(SchemaParseError::UnsupportedVersion) <==> (bytes.len() >= 1
                && bytes[0] != 1)) && ((exists|sw: SchemaV|
                wf_schema(sw) && representable_schema(sw) && schema_bytes(sw) == bytes)
                ==> r is Ok),
        },
{
    match base64_decode(text) {
        Some(bytes) => parse_schema(&bytes),
        None => Err(SchemaParseError::InvalidBase64),
    }
}

} // verus!
