//! The attribute schema: named, typed attributes fixed at index creation.

use vstd::prelude::*;
use vstd::string::StringSliceAdditionalSpecFns;
use crate::errors::AtreeError;
use crate::values::AtreeAttributeType;

verus! {

/// One named, typed attribute of the schema.
#[derive(Debug)]
pub struct AttributeDefinition {
    pub name: Vec<u8>,
    pub kind: AtreeAttributeType,
}

impl AttributeDefinition {
    /// A definition with the given name and type; the name is UTF-8 bytes.
    pub fn new(name: &str, kind: AtreeAttributeType) -> (r: AttributeDefinition)
        ensures
            r.name@ == name.spec_bytes(),
            r.kind == kind,
    {
        AttributeDefinition { name: vstd::slice::slice_to_vec(name.as_bytes()), kind }
    }

    /// A boolean attribute.
    pub fn boolean(name: &str) -> (r: AttributeDefinition)
        ensures
            r.name@ == name.spec_bytes(),
            r.kind == AtreeAttributeType::Boolean,
    {
        AttributeDefinition::new(name, AtreeAttributeType::Boolean)
    }

    /// An integer attribute.
    pub fn integer(name: &str) -> (r: AttributeDefinition)
        ensures
            r.name@ == name.spec_bytes(),
            r.kind == AtreeAttributeType::Integer,
    {
        AttributeDefinition::new(name, AtreeAttributeType::Integer)
    }

    /// An exact-decimal attribute.
    pub fn float(name: &str) -> (r: AttributeDefinition)
        ensures
            r.name@ == name.spec_bytes(),
            r.kind == AtreeAttributeType::Float,
    {
        AttributeDefinition::new(name, AtreeAttributeType::Float)
    }

    /// A string attribute.
    pub fn string(name: &str) -> (r: AttributeDefinition)
        ensures
            r.name@ == name.spec_bytes(),
            r.kind == AtreeAttributeType::String,
    {
        AttributeDefinition::new(name, AtreeAttributeType::String)
    }

    /// A string-list attribute.
    pub fn string_list(name: &str) -> (r: AttributeDefinition)
        ensures
            r.name@ == name.spec_bytes(),
            r.kind == AtreeAttributeType::StringList,
    {
        AttributeDefinition::new(name, AtreeAttributeType::StringList)
    }

    /// An integer-list attribute.
    pub fn integer_list(name: &str) -> (r: AttributeDefinition)
        ensures
            r.name@ == name.spec_bytes(),
            r.kind == AtreeAttributeType::IntegerList,
    {
        AttributeDefinition::new(name, AtreeAttributeType::IntegerList)
    }
}

/// The ordered, immutable set of attribute definitions; names are unique.
#[derive(Debug)]
pub struct AttributeTable {
    pub defs: Vec<AttributeDefinition>,
}

impl AttributeTable {
    /// Well-formed: no two attributes share a name.
    pub open spec fn wf(self) -> bool {
        forall|i: int, j: int|
            0 <= i < j < self.defs.len() ==> self.defs[i].name@ != self.defs[j].name@
    }

    /// The index of the attribute named `name`, if any.
    pub open spec fn sp_index_of(self, name: Seq<u8>) -> Option<int> {
        if exists|i: int| 0 <= i < self.defs@.len() && self.defs@[i].name@ == name {
            Some(choose|i: int| 0 <= i < self.defs@.len() && self.defs@[i].name@ == name)
        } else {
            None
        }
    }

    /// Whether two definitions carry the same name and type.
    pub open spec fn def_like(a: AttributeDefinition, b: AttributeDefinition) -> bool {
        a.name@ == b.name@ && a.kind == b.kind
    }

    /// Builds the table, rejecting duplicate names.
    ///
    /// Returns `Ok` exactly when all names are distinct; on error, the
    /// offending name is reported and nothing is built.
    pub fn new(definitions: &[AttributeDefinition]) -> (r: Result<AttributeTable, AtreeError>)
        ensures
            r is Ok <==> (forall|i: int, j: int|
                0 <= i < j < definitions@.len() ==> definitions@[i].name@
                    != definitions@[j].name@),
            r matches Ok(t) ==> t.wf() && t.defs@.len() == definitions@.len() && (forall|i: int|
                0 <= i < definitions@.len() ==> Self::def_like(t.defs@[i], definitions@[i])),
    {
        let mut defs: Vec<AttributeDefinition> = Vec::new();
        let n = definitions.len();
        let mut i: usize = 0;
        while i < n
            invariant
                i <= n,
                n == definitions@.len(),
                defs@.len() == i,
                forall|k: int| 0 <= k < i ==> Self::def_like(defs@[k], definitions@[k]),
                forall|a: int, b: int|
                    0 <= a < b < i ==> definitions@[a].name@ != definitions@[b].name@,
            decreases n - i,
        {
            let d = &definitions[i];
            let mut j: usize = 0;
            while j < i
                invariant
                    j <= i,
                    i < n,
                    n == definitions@.len(),
                    d == definitions@[i as int],
                    forall|b: int|
                        0 <= b < j ==> definitions@[b].name@ != definitions@[i as int].name@,
                decreases i - j,
            {
                if crate::values::bytes_eq(definitions[j].name.as_slice(), d.name.as_slice()) {
                    return Err(AtreeError::Schema(vstd::slice::slice_to_vec(d.name.as_slice())));
                }
                j = j + 1;
            }
            defs.push(
                AttributeDefinition { name: vstd::slice::slice_to_vec(d.name.as_slice()), kind: d.kind },
            );
            i = i + 1;
        }
        Ok(AttributeTable { defs })
    }

    /// The number of attributes.
    pub fn len(&self) -> (r: usize)
        ensures
            r == self.defs@.len(),
    {
        self.defs.len()
    }

    /// Looks a name up; `Some(i)` exactly when attribute `i` has that name,
    /// and in a well-formed table the result is the mathematical lookup.
    pub fn index_of(&self, name: &[u8]) -> (r: Option<usize>)
        ensures
            match r {
                Some(i) => i < self.defs@.len() && self.defs@[i as int].name@ == name@,
                None => forall|i: int| 0 <= i < self.defs@.len() ==> self.defs@[i].name@ != name@,
            },
            self.wf() ==> match r {
                Some(i) => self.sp_index_of(name@) == Some(i as int),
                None => self.sp_index_of(name@) is None,
            },
    {
        let mut i: usize = 0;
        let n = self.defs.len();
        while i < n
            invariant
                i <= n,
                n == self.defs@.len(),
                forall|k: int| 0 <= k < i ==> self.defs@[k].name@ != name@,
            decreases n - i,
        {
            if crate::values::bytes_eq(self.defs[i].name.as_slice(), name) {
                proof {
                    if self.wf() {
                        self.lemma_name_unique(name@, i as int);
                        let k = choose|k: int|
                            0 <= k < self.defs@.len() && self.defs@[k].name@ == name@;
                        assert(k == i as int);
                    }
                }
                return Some(i);
            }
            i = i + 1;
        }
        None
    }

    /// In a well-formed table a name picks out at most one attribute.
    pub proof fn lemma_name_unique(self, nm: Seq<u8>, i: int)
        requires
            self.wf(),
            0 <= i < self.defs@.len(),
            self.defs@[i].name@ == nm,
        ensures
            forall|j: int| 0 <= j < self.defs@.len() && self.defs@[j].name@ == nm ==> j == i,
    {
        assert forall|j: int|
            0 <= j < self.defs@.len() && self.defs@[j].name@ == nm implies j == i by {
            if j < i {
                assert(self.defs@[j].name@ != self.defs@[i].name@);
            } else if j > i {
                assert(self.defs@[i].name@ != self.defs@[j].name@);
            }
        }
    }

    /// The declared type of attribute `i`.
    pub fn kind_of(&self, i: usize) -> (r: AtreeAttributeType)
        requires
            i < self.defs@.len(),
        ensures
            r == self.defs@[i as int].kind,
    {
        self.defs[i].kind
    }
}

} // verus!
