//! The recursive description of a binary encoding and its mathematical model.

use vstd::prelude::*;

verus! {

/// Byte width of a fixed-width integer or of a length prefix.
#[derive(Clone, Copy, Debug, PartialEq, Eq, Structural)]
pub enum Width {
    B1,
    B2,
    B4,
    B8,
}

impl Width {
    /// The number of bytes the width stands for.
    pub open spec fn bytes(self) -> nat {
        match self {
            Width::B1 => 1,
            Width::B2 => 2,
            Width::B4 => 4,
            Width::B8 => 8,
        }
    }

    /// Executable byte count.
    pub fn byte_len(&self) -> (n: usize)
        ensures
            n == self.bytes(),
            1 <= n <= 8,
    {
        match self {
            Width::B1 => 1,
            Width::B2 => 2,
            Width::B4 => 4,
            Width::B8 => 8,
        }
    }
}

/// A recursive description of a binary layout: fixed-width unsigned
/// integers, byte strings of fixed or length-prefixed size, length-prefixed
/// text, sequences, optional values, ordered field lists and tagged unions.
/// Every layout is self-terminating: decoding needs no lookahead beyond the
/// declared prefix widths.
#[derive(Debug, PartialEq, Eq)]
pub enum TypeLayout {
    /// One byte, `0` or `1`.
    Bool,
    /// Little-endian unsigned integer of the given width.
    UInt(Width),
    /// Exactly this many raw bytes, written as lowercase hex text.
    FixedBytes(u32),
    /// Length-prefixed raw bytes, written as lowercase hex text.
    VarBytes(Width),
    /// Length-prefixed UTF-8 text; the prefix counts bytes.
    Text(Width),
    /// Length-prefixed sequence of equally-shaped elements.
    List(Width, Box<TypeLayout>),
    /// One presence byte, then the value when present.
    Optional(Box<TypeLayout>),
    /// Ordered named fields; layout order defines wire order.
    Struct(Vec<(Vec<char>, TypeLayout)>),
    /// Tagged union: one tag byte holding the variant's index, then the
    /// variant's payload.
    Union(Vec<(Vec<char>, TypeLayout)>),
}

/// The mathematical model of a `TypeLayout`; widths appear as byte counts.
#[verifier::ext_equal]
pub enum LayoutV {
    Bool,
    UInt(nat),
    FixedBytes(nat),
    VarBytes(nat),
    Text(nat),
    List(nat, Box<LayoutV>),
    Optional(Box<LayoutV>),
    Struct(Seq<(Seq<char>, LayoutV)>),
    Union(Seq<(Seq<char>, LayoutV)>),
}

/// Models of a field list, in order.
pub open spec fn field_views_of(s: Seq<(Vec<char>, TypeLayout)>) -> Seq<(Seq<char>, LayoutV)>
    decreases s,
{
    if s.len() == 0 {
        Seq::empty()
    } else {
        seq![(s[0].0@, s[0].1@)] + field_views_of(s.drop_first())
    }
}

impl View for TypeLayout {
    type V = LayoutV;

    open spec fn view(&self) -> LayoutV
        decreases self,
    {
        match self {
            TypeLayout::Bool => LayoutV::Bool,
            TypeLayout::UInt(w) => LayoutV::UInt(w.bytes()),
            TypeLayout::FixedBytes(n) => LayoutV::FixedBytes(*n as nat),
            TypeLayout::VarBytes(w) => LayoutV::VarBytes(w.bytes()),
            TypeLayout::Text(w) => LayoutV::Text(w.bytes()),
            TypeLayout::List(w, el) => LayoutV::List(w.bytes(), Box::new((**el)@)),
            TypeLayout::Optional(el) => LayoutV::Optional(Box::new((**el)@)),
            TypeLayout::Struct(fs) => LayoutV::Struct(field_views_of(fs@)),
            TypeLayout::Union(vs) => LayoutV::Union(field_views_of(vs@)),
        }
    }
}

/// The model of a field stands at the field's own index.
pub proof fn lemma_field_views_of(s: Seq<(Vec<char>, TypeLayout)>)
    ensures
        field_views_of(s).len() == s.len(),
        forall|i: int| 0 <= i < s.len() ==> field_views_of(s)[i] == (#[trigger] s[i].0@, s[i].1@),
    decreases s,
{
    if s.len() > 0 {
        lemma_field_views_of(s.drop_first());
        assert(field_views_of(s) == seq![(s[0].0@, s[0].1@)] + field_views_of(s.drop_first()));
        assert forall|i: int| 0 <= i < s.len() implies field_views_of(s)[i] == (
            #[trigger] s[i].0@,
            s[i].1@,
        ) by {
            if i > 0 {
                assert(s.drop_first()[i - 1] == s[i]);
            }
        }
    }
}

/// A prefix or integer width the wire format knows.
pub open spec fn valid_width(w: nat) -> bool {
    w == 1 || w == 2 || w == 4 || w == 8
}

/// No two fields of the list carry the same name.
pub open spec fn distinct_names(fs: Seq<(Seq<char>, LayoutV)>) -> bool {
    forall|i: int, j: int|
        0 <= i < j < fs.len() ==> (#[trigger] fs[i].0) != (#[trigger] fs[j].0)
}

/// Well-formedness of every field layout of the list.
pub open spec fn wf_fields(fs: Seq<(Seq<char>, LayoutV)>) -> bool
    decreases fs,
{
    if fs.len() == 0 {
        true
    } else {
        wf_layout(fs[0].1) && wf_fields(fs.drop_first())
    }
}

/// Well-formedness of a layout: widths are ones the format knows, a union
/// has at most 256 variants (its tag is one byte) and at least one, and the
/// fields of a struct and the variants of a union carry distinct names (so
/// that a decoded value maps names unambiguously and re-encodes under the
/// variant it was decoded from).
pub open spec fn wf_layout(l: LayoutV) -> bool
    decreases l,
{
    match l {
        LayoutV::Bool => true,
        LayoutV::UInt(w) => valid_width(w),
        LayoutV::FixedBytes(_) => true,
        LayoutV::VarBytes(w) => valid_width(w),
        LayoutV::Text(w) => valid_width(w),
        LayoutV::List(w, el) => valid_width(w) && wf_layout(*el),
        LayoutV::Optional(el) => wf_layout(*el),
        LayoutV::Struct(fs) => distinct_names(fs) && wf_fields(fs),
        LayoutV::Union(vs) => 1 <= vs.len() <= 256 && distinct_names(vs) && wf_fields(vs),
    }
}

/// Each field of a well-formed field list is itself well formed.
pub proof fn lemma_wf_fields_index(fs: Seq<(Seq<char>, LayoutV)>, i: int)
    requires
        wf_fields(fs),
        0 <= i < fs.len(),
    ensures
        wf_layout(fs[i].1),
    decreases fs,
{
    if i > 0 {
        assert(fs.drop_first()[i - 1] == fs[i]);
        lemma_wf_fields_index(fs.drop_first(), i - 1);
    }
}

} // verus!
