//! In-memory arrays: flat primitive arrays and lists over a child array.
use vstd::prelude::*;

use crate::datatypes::{DataType, PrimitiveType};

verus! {

/// A flat array of integers with an optional validity bit per slot.
#[derive(Debug)]
pub struct PrimitiveArray<T> {
    pub data_type: PrimitiveType,
    pub values: Vec<T>,
    pub validity: Option<Vec<bool>>,
}

/// A list array: slot `i` spans `values[offsets[i]..offsets[i + 1]]`.
#[derive(Debug)]
pub struct ListArray<O> {
    pub data_type: DataType,
    pub offsets: Vec<O>,
    pub values: Box<Array>,
    pub validity: Option<Vec<bool>>,
}

/// An array of any of the supported shapes.
#[derive(Debug)]
pub enum Array {
    Primitive(PrimitiveArray<i64>),
    /// A list with 32-bit offsets.
    List(ListArray<i32>),
    /// A list with 64-bit offsets.
    LargeList(ListArray<i64>),
}

impl<T> PrimitiveArray<T> {
    pub fn from_data(data_type: PrimitiveType, values: Vec<T>, validity: Option<Vec<bool>>) -> (r: Self)
        ensures
            r.data_type == data_type,
            r.values == values,
            r.validity == validity,
    {
        PrimitiveArray { data_type, values, validity }
    }

    pub fn len(&self) -> (r: usize)
        ensures
            r == self.values@.len(),
    {
        self.values.len()
    }

    /// Whether slot `i` holds a value.
    pub open spec fn is_valid(&self, i: int) -> bool {
        match self.validity {
            Some(v) => v@[i],
            None => true,
        }
    }

    /// The validity, where present, covers every slot.
    pub open spec fn well_formed(&self) -> bool {
        self.validity is Some ==> self.validity.unwrap()@.len() == self.values@.len()
    }
}

} // verus!
