//! Events and their incremental, fallible builder.
//!
//! A builder validates each assignment against the schema: the attribute must
//! exist, the value's type must match its declaration, and no attribute may be
//! assigned twice. Finalizing the builder yields an immutable event; whatever
//! was never assigned stays undefined.

use vstd::prelude::*;
use vstd::string::StringSliceAdditionalSpecFns;
use crate::decimal::Decimal;
use crate::errors::AtreeError;
use crate::schema::AttributeTable;
use crate::values::{event_values_view, AtreeAttributeType, EventValue, EventValueS};

verus! {

/// An immutable, sparse, typed assignment of attribute values, one slot per
/// schema attribute.
pub struct Event {
    pub values: Vec<EventValue>,
}

impl Event {
    /// The model of this event: one value per schema attribute.
    pub open spec fn view(&self) -> Seq<EventValueS> {
        event_values_view(self.values@)
    }
}

/// The mutable staging structure from which an [`Event`] is built.
pub struct EventBuilder {
    values: Vec<EventValue>,
    assigned: Vec<bool>,
}

impl EventBuilder {
    /// One slot per attribute; all start unassigned and undefined.
    pub closed spec fn wf(self, n_attrs: nat) -> bool {
        self.values@.len() == n_attrs && self.assigned@.len() == n_attrs
    }

    /// The model of the staged values.
    pub closed spec fn view(&self) -> Seq<EventValueS> {
        event_values_view(self.values@)
    }

    /// Which attributes have been assigned so far.
    pub closed spec fn assigned_view(&self) -> Seq<bool> {
        self.assigned@
    }

    /// A fresh builder for a schema of `n` attributes: everything undefined,
    /// nothing assigned.
    pub fn new(n: usize) -> (r: EventBuilder)
        ensures
            r.wf(n as nat),
            r@.len() == n,
            r.assigned_view().len() == n,
            forall|k: int| 0 <= k < n ==> r@[k] == EventValueS::Undefined,
            forall|k: int| 0 <= k < n ==> !r.assigned_view()[k],
    {
        let mut values: Vec<EventValue> = Vec::new();
        let mut assigned: Vec<bool> = Vec::new();
        let mut i: usize = 0;
        while i < n
            invariant
                i <= n,
                values@.len() == i,
                assigned@.len() == i,
                forall|k: int| 0 <= k < i ==> values@[k]@ == EventValueS::Undefined,
                forall|k: int| 0 <= k < i ==> !assigned@[k],
            decreases n - i,
        {
            values.push(EventValue::Undefined);
            assigned.push(false);
            i = i + 1;
        }
        EventBuilder { values, assigned }
    }

    /// Consumes the builder and yields the immutable event.
    pub fn build(self) -> (r: Event)
        ensures
            r@ == self@,
    {
        Event { values: self.values }
    }
}

/// What a well-formed assignment step guarantees: on success the one slot is
/// set and marked; on failure nothing changes and the error names the cause.
///
/// `Ok` exactly when `name` is an attribute of kind `kind` not yet assigned;
/// the error is `UnknownAttribute` for a name outside the schema,
/// `Redefinition` for a second assignment, and `Type` for a declared type
/// other than `kind`.
pub open spec fn with_post(
    schema: crate::schema::AttributeTable,
    old_b: EventBuilder,
    new_b: EventBuilder,
    name: Seq<u8>,
    kind: AtreeAttributeType,
    value: EventValueS,
    r: Result<(), AtreeError>,
) -> bool {
    &&& (r is Ok <==> exists|i: int|
        0 <= i < schema.defs@.len() && schema.defs@[i].name@ == name && schema.defs@[i].kind
            == kind && !old_b.assigned_view()[i])
    &&& (r is Ok ==> exists|i: int|
        {
            &&& 0 <= i < schema.defs@.len()
            &&& schema.defs@[i].name@ == name
            &&& new_b@ == old_b@.update(i, value)
            &&& new_b.assigned_view() == old_b.assigned_view().update(i, true)
        })
    &&& (r is Err ==> new_b@ == old_b@ && new_b.assigned_view() == old_b.assigned_view())
    &&& (match r {
        Ok(_) => true,
        Err(AtreeError::UnknownAttribute(n)) => n@ == name && (forall|i: int|
            0 <= i < schema.defs@.len() ==> schema.defs@[i].name@ != name),
        Err(AtreeError::Redefinition(n)) => n@ == name && (exists|i: int|
            0 <= i < schema.defs@.len() && schema.defs@[i].name@ == name
                && old_b.assigned_view()[i]),
        Err(AtreeError::Type(n, k)) => n@ == name && k == kind && (exists|i: int|
            0 <= i < schema.defs@.len() && schema.defs@[i].name@ == name && schema.defs@[i].kind
                != kind),
        _ => false,
    })
}

impl EventBuilder {
    /// Validates and stages one value; see [`with_post`] for the contract.
    fn with_value(
        &mut self,
        schema: &AttributeTable,
        name: &str,
        kind: AtreeAttributeType,
        value: EventValue,
    ) -> (r: Result<(), AtreeError>)
        requires
            schema.wf(),
            old(self).wf(schema.defs@.len()),
            value@ is Undefined == false,
        ensures
            final(self).wf(schema.defs@.len()),
            with_post(*schema, *old(self), *final(self), name.spec_bytes(), kind, value@, r),
    {
        let name_bytes = name.as_bytes();
        match schema.index_of(name_bytes) {
            None => Err(
                AtreeError::UnknownAttribute(vstd::slice::slice_to_vec(name_bytes)),
            ),
            Some(i) => {
                proof {
                    schema.lemma_name_unique(name.spec_bytes(), i as int);
                }
                if self.assigned[i] {
                    proof {
                        let nm = name.spec_bytes();
                        assert(old(self).assigned_view()[i as int]);
                        assert forall|j: int|
                            !(0 <= j < schema.defs@.len() && schema.defs@[j].name@ == nm
                                && schema.defs@[j].kind == kind && !old(self).assigned_view()[
                            j]) by {
                            if 0 <= j < schema.defs@.len() && schema.defs@[j].name@ == nm {
                                assert(j == i as int);
                            }
                        }
                    }
                    return Err(AtreeError::Redefinition(vstd::slice::slice_to_vec(name_bytes)));
                }
                let declared = schema.kind_of(i);
                if declared != kind {
                    return Err(AtreeError::Type(vstd::slice::slice_to_vec(name_bytes), kind));
                }
                self.values[i] = value;
                self.assigned[i] = true;
                proof {
                    assert(self@ =~= old(self)@.update(i as int, value@));
                    assert(self.assigned_view() =~= old(self).assigned_view().update(
                        i as int,
                        true,
                    ));
                }
                Ok(())
            },
        }
    }

    /// Assigns a boolean attribute.
    pub fn with_boolean(&mut self, schema: &AttributeTable, name: &str, value: bool) -> (r: Result<
        (),
        AtreeError,
    >)
        requires
            schema.wf(),
            old(self).wf(schema.defs@.len()),
        ensures
            final(self).wf(schema.defs@.len()),
            with_post(
                *schema,
                *old(self),
                *final(self),
                name.spec_bytes(),
                AtreeAttributeType::Boolean,
                EventValueS::Boolean(value),
                r,
            ),
    {
        self.with_value(schema, name, AtreeAttributeType::Boolean, EventValue::Boolean(value))
    }

    /// Assigns an integer attribute.
    pub fn with_integer(&mut self, schema: &AttributeTable, name: &str, value: i64) -> (r: Result<
        (),
        AtreeError,
    >)
        requires
            schema.wf(),
            old(self).wf(schema.defs@.len()),
        ensures
            final(self).wf(schema.defs@.len()),
            with_post(
                *schema,
                *old(self),
                *final(self),
                name.spec_bytes(),
                AtreeAttributeType::Integer,
                EventValueS::Integer(value),
                r,
            ),
    {
        self.with_value(schema, name, AtreeAttributeType::Integer, EventValue::Integer(value))
    }

    /// Assigns an exact-decimal attribute: the value is `number * 10^(-scale)`.
    pub fn with_float(
        &mut self,
        schema: &AttributeTable,
        name: &str,
        number: i64,
        scale: u32,
    ) -> (r: Result<(), AtreeError>)
        requires
            schema.wf(),
            old(self).wf(schema.defs@.len()),
        ensures
            final(self).wf(schema.defs@.len()),
            with_post(
                *schema,
                *old(self),
                *final(self),
                name.spec_bytes(),
                AtreeAttributeType::Float,
                EventValueS::Float(Decimal { mantissa: number, scale }),
                r,
            ),
    {
        self.with_value(
            schema,
            name,
            AtreeAttributeType::Float,
            EventValue::Float(Decimal { mantissa: number, scale }),
        )
    }

    /// Assigns a string attribute.
    pub fn with_string(&mut self, schema: &AttributeTable, name: &str, value: &str) -> (r: Result<
        (),
        AtreeError,
    >)
        requires
            schema.wf(),
            old(self).wf(schema.defs@.len()),
        ensures
            final(self).wf(schema.defs@.len()),
            with_post(
                *schema,
                *old(self),
                *final(self),
                name.spec_bytes(),
                AtreeAttributeType::String,
                EventValueS::String(value.spec_bytes()),
                r,
            ),
    {
        self.with_value(
            schema,
            name,
            AtreeAttributeType::String,
            EventValue::String(vstd::slice::slice_to_vec(value.as_bytes())),
        )
    }

    /// Assigns a string-list attribute.
    pub fn with_string_list(
        &mut self,
        schema: &AttributeTable,
        name: &str,
        values: Vec<Vec<u8>>,
    ) -> (r: Result<(), AtreeError>)
        requires
            schema.wf(),
            old(self).wf(schema.defs@.len()),
        ensures
            final(self).wf(schema.defs@.len()),
            with_post(
                *schema,
                *old(self),
                *final(self),
                name.spec_bytes(),
                AtreeAttributeType::StringList,
                EventValueS::StringList(crate::ast::bytes_list_view(values@)),
                r,
            ),
    {
        self.with_value(schema, name, AtreeAttributeType::StringList, EventValue::StringList(values))
    }

    /// Assigns an integer-list attribute.
    pub fn with_integer_list(
        &mut self,
        schema: &AttributeTable,
        name: &str,
        values: Vec<i64>,
    ) -> (r: Result<(), AtreeError>)
        requires
            schema.wf(),
            old(self).wf(schema.defs@.len()),
        ensures
            final(self).wf(schema.defs@.len()),
            with_post(
                *schema,
                *old(self),
                *final(self),
                name.spec_bytes(),
                AtreeAttributeType::IntegerList,
                EventValueS::IntegerList(values@),
                r,
            ),
    {
        self.with_value(
            schema,
            name,
            AtreeAttributeType::IntegerList,
            EventValue::IntegerList(values),
        )
    }

    /// Explicitly records an attribute as present-but-unknown.
    ///
    /// `Ok` exactly when the name is in the schema and not yet assigned; the
    /// slot stays undefined but counts as assigned.
    pub fn with_undefined(&mut self, schema: &AttributeTable, name: &str) -> (r: Result<
        (),
        AtreeError,
    >)
        requires
            schema.wf(),
            old(self).wf(schema.defs@.len()),
        ensures
            final(self).wf(schema.defs@.len()),
            r is Ok <==> exists|i: int|
                0 <= i < schema.defs@.len() && schema.defs@[i].name@ == name.spec_bytes() && !old(
                    self,
                ).assigned_view()[i],
            r is Ok ==> exists|i: int|
                {
                    &&& 0 <= i < schema.defs@.len()
                    &&& schema.defs@[i].name@ == name.spec_bytes()
                    &&& final(self)@ == old(self)@.update(i, EventValueS::Undefined)
                    &&& final(self).assigned_view() == old(self).assigned_view().update(i, true)
                },
            r is Err ==> final(self)@ == old(self)@ && final(self).assigned_view() == old(
                self,
            ).assigned_view(),
            match r {
                Ok(_) => true,
                Err(AtreeError::UnknownAttribute(n)) => n@ == name.spec_bytes(),
                Err(AtreeError::Redefinition(n)) => n@ == name.spec_bytes(),
                _ => false,
            },
    {
        let name_bytes = name.as_bytes();
        match schema.index_of(name_bytes) {
            None => Err(AtreeError::UnknownAttribute(vstd::slice::slice_to_vec(name_bytes))),
            Some(i) => {
                if self.assigned[i] {
                    proof {
                        let nm = name.spec_bytes();
                        assert(old(self).assigned_view()[i as int]);
                        assert forall|j: int|
                            !(0 <= j < schema.defs@.len() && schema.defs@[j].name@ == nm && !old(
                                self,
                            ).assigned_view()[j]) by {
                            if 0 <= j < schema.defs@.len() && schema.defs@[j].name@ == nm {
                                assert(j == i as int);
                            }
                        }
                    }
                    return Err(AtreeError::Redefinition(vstd::slice::slice_to_vec(name_bytes)));
                }
                self.values[i] = EventValue::Undefined;
                self.assigned[i] = true;
                proof {
                    assert(self@ =~= old(self)@.update(i as int, EventValueS::Undefined));
                    assert(self.assigned_view() =~= old(self).assigned_view().update(
                        i as int,
                        true,
                    ));
                }
                Ok(())
            },
        }
    }
}

} // verus!
