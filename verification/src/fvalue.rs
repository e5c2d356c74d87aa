//! Read-only projections of one decoded field's value and its declared
//! wire type, as plain data: the string representation the engine rendered,
//! the value's byte length where its type has one, and the type descriptor.

use vstd::prelude::*;

verus! {

/// The declared wire type of a field value.
#[derive(Debug)]
pub struct FType {
    pub id: u32,
    pub wire_size: i32,
    pub name: String,
}

impl Clone for FType {
    fn clone(&self) -> (r: Self)
        ensures
            r == *self,
    {
        FType { id: self.id, wire_size: self.wire_size, name: self.name.clone() }
    }
}

impl FType {
    pub fn new(id: u32, wire_size: i32, name: String) -> (r: FType)
        ensures
            r.id == id,
            r.wire_size == wire_size,
            r.name == name,
    {
        FType { id, wire_size, name }
    }

    pub fn get_id(&self) -> (r: u32)
        ensures
            r == self.id,
    {
        self.id
    }

    pub fn get_wire_size(&self) -> (r: i32)
        ensures
            r == self.wire_size,
    {
        self.wire_size
    }

    /// The types are observably the same descriptor.
    pub open spec fn eqv(&self, o: &FType) -> bool {
        &&& self.id == o.id
        &&& self.wire_size == o.wire_size
        &&& self.name@ == o.name@
    }

    /// The type's name, e.g. `FT_UINT16`.
    pub fn name(&self) -> (r: String)
        ensures
            r == self.name,
    {
        self.name.clone()
    }
}

/// One decoded field's value: a read-only view scoped to the node that
/// carries it.
#[derive(Debug)]
pub struct FValue {
    pub repr: String,
    pub length: Option<usize>,
    pub ftype: FType,
}

impl Clone for FValue {
    fn clone(&self) -> (r: Self)
        ensures
            r == *self,
    {
        FValue { repr: self.repr.clone(), length: self.length, ftype: self.ftype.clone() }
    }
}

impl FValue {
    pub fn new(repr: String, length: Option<usize>, ftype: FType) -> (r: FValue)
        ensures
            r.repr == repr,
            r.length == length,
            r.ftype == ftype,
    {
        FValue { repr, length, ftype }
    }

    /// The value's display representation.
    pub fn to_string(&self) -> (r: String)
        ensures
            r == self.repr,
    {
        self.repr.clone()
    }

    /// The value's byte length, absent where its type declares none.
    pub fn length(&self) -> (r: Option<usize>)
        ensures
            r == self.length,
    {
        self.length
    }

    pub fn get_ftype(&self) -> (r: FType)
        ensures
            r == self.ftype,
    {
        self.ftype.clone()
    }

    pub fn get_ftype_name(&self) -> (r: String)
        ensures
            r == self.ftype.name,
    {
        self.ftype.name.clone()
    }

    /// The representation as a spec value; what filter evaluation compares.
    pub open spec fn spec_repr(&self) -> Seq<char> {
        self.repr@
    }

    /// The values are observably the same: same representation, length
    /// and type descriptor.
    pub open spec fn eqv(&self, o: &FValue) -> bool {
        &&& self.repr@ == o.repr@
        &&& self.length == o.length
        &&& self.ftype.eqv(&o.ftype)
    }
}

} // verus!
