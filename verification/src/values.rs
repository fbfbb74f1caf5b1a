//! The JSON-shaped interchange value and its mathematical model.

use vstd::prelude::*;

verus! {

/// A JSON-shaped value: the universal interchange point between
/// human-facing input/output and the binary codec.  Text is carried as a
/// sequence of characters; byte strings appear as hexadecimal text.
/// An object is an ordered list of key/value pairs in document order.
#[derive(Debug, PartialEq, Eq)]
pub enum StructuredValue {
    Null,
    Bool(bool),
    Number(u64),
    Text(Vec<char>),
    Array(Vec<StructuredValue>),
    Object(Vec<(Vec<char>, StructuredValue)>),
}

/// The mathematical model of a `StructuredValue`.
#[verifier::ext_equal]
pub enum ValueV {
    Null,
    Bool(bool),
    Number(nat),
    Text(Seq<char>),
    Array(Seq<ValueV>),
    Object(Seq<(Seq<char>, ValueV)>),
}

/// Models of the elements of an array, in order.
pub open spec fn views_of(s: Seq<StructuredValue>) -> Seq<ValueV>
    decreases s,
{
    if s.len() == 0 {
        Seq::empty()
    } else {
        seq![s[0]@] + views_of(s.drop_first())
    }
}

/// Models of the entries of an object, in order.
pub open spec fn entry_views_of(s: Seq<(Vec<char>, StructuredValue)>) -> Seq<(Seq<char>, ValueV)>
    decreases s,
{
    if s.len() == 0 {
        Seq::empty()
    } else {
        seq![(s[0].0@, s[0].1@)] + entry_views_of(s.drop_first())
    }
}

impl View for StructuredValue {
    type V = ValueV;

    open spec fn view(&self) -> ValueV
        decreases self,
    {
        match self {
            StructuredValue::Null => ValueV::Null,
            StructuredValue::Bool(b) => ValueV::Bool(*b),
            StructuredValue::Number(n) => ValueV::Number(*n as nat),
            StructuredValue::Text(s) => ValueV::Text(s@),
            StructuredValue::Array(items) => ValueV::Array(views_of(items@)),
            StructuredValue::Object(entries) => ValueV::Object(entry_views_of(entries@)),
        }
    }
}

/// The model of an array element stands at the element's own index.
pub proof fn lemma_views_of(s: Seq<StructuredValue>)
    ensures
        views_of(s).len() == s.len(),
        forall|i: int| 0 <= i < s.len() ==> views_of(s)[i] == #[trigger] s[i]@,
    decreases s,
{
    if s.len() > 0 {
        lemma_views_of(s.drop_first());
        assert(views_of(s) == seq![s[0]@] + views_of(s.drop_first()));
        assert forall|i: int| 0 <= i < s.len() implies views_of(s)[i] == #[trigger] s[i]@ by {
            if i > 0 {
                assert(s.drop_first()[i - 1] == s[i]);
            }
        }
    }
}

/// The model of an object entry stands at the entry's own index.
pub proof fn lemma_entry_views_of(s: Seq<(Vec<char>, StructuredValue)>)
    ensures
        entry_views_of(s).len() == s.len(),
        forall|i: int| 0 <= i < s.len() ==> entry_views_of(s)[i] == (#[trigger] s[i].0@, s[i].1@),
    decreases s,
{
    if s.len() > 0 {
        lemma_entry_views_of(s.drop_first());
        assert(entry_views_of(s) == seq![(s[0].0@, s[0].1@)] + entry_views_of(s.drop_first()));
        assert forall|i: int| 0 <= i < s.len() implies entry_views_of(s)[i] == (
            #[trigger] s[i].0@,
            s[i].1@,
        ) by {
            if i > 0 {
                assert(s.drop_first()[i - 1] == s[i]);
            }
        }
    }
}

} // verus!
