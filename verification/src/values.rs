//! Attribute types and the typed values an event can carry.

use vstd::prelude::*;
use crate::decimal::Decimal;

verus! {

/// The type of an attribute, fixed by the schema at index creation.
#[derive(Clone, Copy, PartialEq, Eq, Structural, Debug)]
pub enum AtreeAttributeType {
    Boolean,
    Integer,
    Float,
    String,
    StringList,
    IntegerList,
}

/// A typed value assigned to one attribute of an event.
///
/// `Undefined` records an attribute as present-but-unknown; attributes never
/// assigned in a builder are also `Undefined`. Text is carried as UTF-8 bytes.
#[derive(Debug)]
pub enum EventValue {
    Undefined,
    Boolean(bool),
    Integer(i64),
    Float(Decimal),
    String(Vec<u8>),
    StringList(Vec<Vec<u8>>),
    IntegerList(Vec<i64>),
}

/// The mathematical model of an event value, over sequences.
pub ghost enum EventValueS {
    Undefined,
    Boolean(bool),
    Integer(i64),
    Float(Decimal),
    String(Seq<u8>),
    StringList(Seq<Seq<u8>>),
    IntegerList(Seq<i64>),
}

impl View for EventValue {
    type V = EventValueS;

    open spec fn view(&self) -> EventValueS {
        match *self {
            EventValue::Undefined => EventValueS::Undefined,
            EventValue::Boolean(b) => EventValueS::Boolean(b),
            EventValue::Integer(v) => EventValueS::Integer(v),
            EventValue::Float(d) => EventValueS::Float(d),
            EventValue::String(ref s) => EventValueS::String(s@),
            EventValue::StringList(ref l) => EventValueS::StringList(
                l@.map_values(|x: Vec<u8>| x@),
            ),
            EventValue::IntegerList(ref l) => EventValueS::IntegerList(l@),
        }
    }
}

/// The view of a whole assignment of event values.
pub open spec fn event_values_view(v: Seq<EventValue>) -> Seq<EventValueS> {
    v.map_values(|x: EventValue| x@)
}

/// Whether a sequence of integers contains `v`.
pub open spec fn int_seq_contains(l: Seq<i64>, v: i64) -> bool {
    exists|k: int| 0 <= k < l.len() && l[k] == v
}

/// Whether a sequence of byte strings contains one whose bytes are `v`.
pub open spec fn bytes_seq_contains(l: Seq<Vec<u8>>, v: Seq<u8>) -> bool {
    exists|k: int| 0 <= k < l.len() && l[k]@ == v
}

/// Compare two byte strings for equality.
pub fn bytes_eq(a: &[u8], b: &[u8]) -> (r: bool)
    ensures
        r == (a@ == b@),
{
    if a.len() != b.len() {
        return false;
    }
    let mut i: usize = 0;
    while i < a.len()
        invariant
            i <= a.len(),
            a@.len() == b@.len(),
            forall|k: int| 0 <= k < i ==> a@[k] == b@[k],
        decreases a.len() - i,
    {
        if a[i] != b[i] {
            return false;
        }
        i = i + 1;
    }
    proof {
        assert(a@ =~= b@);
    }
    true
}

/// Whether `l` contains the integer `v`.
pub fn int_list_contains(l: &Vec<i64>, v: i64) -> (r: bool)
    ensures
        r == int_seq_contains(l@, v),
{
    let mut i: usize = 0;
    while i < l.len()
        invariant
            i <= l.len(),
            forall|k: int| 0 <= k < i ==> l@[k] != v,
        decreases l.len() - i,
    {
        if l[i] == v {
            return true;
        }
        i = i + 1;
    }
    false
}

/// Whether `l` contains a byte string equal to `v`.
pub fn bytes_list_contains(l: &Vec<Vec<u8>>, v: &[u8]) -> (r: bool)
    ensures
        r == bytes_seq_contains(l@, v@),
{
    let mut i: usize = 0;
    while i < l.len()
        invariant
            i <= l.len(),
            forall|k: int| 0 <= k < i ==> l@[k]@ != v@,
        decreases l.len() - i,
    {
        if bytes_eq(l[i].as_slice(), v) {
            return true;
        }
        i = i + 1;
    }
    false
}

} // verus!
