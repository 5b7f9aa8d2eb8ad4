//! Logical types and fields of a schema.
use vstd::prelude::*;

verus! {

/// The logical type of a column.
#[derive(Debug)]
pub enum DataType {
    Null,
    Boolean,
    Int8,
    Int16,
    Int32,
    Int64,
    UInt8,
    UInt16,
    UInt32,
    UInt64,
    Binary,
    LargeBinary,
    FixedSizeBinary(usize),
    Utf8,
    LargeUtf8,
    /// A list with 32-bit offsets.
    List(Box<Field>),
    /// A list with 64-bit offsets.
    LargeList(Box<Field>),
    /// A list whose items all have the given size.
    FixedSizeList(Box<Field>, usize),
    Struct(Vec<Field>),
    Union(Vec<Field>),
    /// Dictionary-encoded values of the given type.
    Dictionary(Box<DataType>),
}

/// The logical type of a primitive array's slots.
#[derive(Clone, Copy, Debug, PartialEq, Eq, Structural)]
pub enum PrimitiveType {
    Int8,
    Int16,
    Int32,
    Int64,
    UInt8,
    UInt16,
    UInt32,
    UInt64,
}

/// The primitive type that `data_type` names, if it names one.
pub open spec fn primitive_of(data_type: DataType) -> Option<PrimitiveType> {
    match data_type {
        DataType::Int8 => Some(PrimitiveType::Int8),
        DataType::Int16 => Some(PrimitiveType::Int16),
        DataType::Int32 => Some(PrimitiveType::Int32),
        DataType::Int64 => Some(PrimitiveType::Int64),
        DataType::UInt8 => Some(PrimitiveType::UInt8),
        DataType::UInt16 => Some(PrimitiveType::UInt16),
        DataType::UInt32 => Some(PrimitiveType::UInt32),
        DataType::UInt64 => Some(PrimitiveType::UInt64),
        _ => None,
    }
}

impl DataType {
    /// The primitive type this type names, if it names one.
    pub fn to_primitive(&self) -> (r: Option<PrimitiveType>)
        ensures
            r == primitive_of(*self),
    {
        match self {
            DataType::Int8 => Some(PrimitiveType::Int8),
            DataType::Int16 => Some(PrimitiveType::Int16),
            DataType::Int32 => Some(PrimitiveType::Int32),
            DataType::Int64 => Some(PrimitiveType::Int64),
            DataType::UInt8 => Some(PrimitiveType::UInt8),
            DataType::UInt16 => Some(PrimitiveType::UInt16),
            DataType::UInt32 => Some(PrimitiveType::UInt32),
            DataType::UInt64 => Some(PrimitiveType::UInt64),
            _ => None,
        }
    }
}

/// A named, possibly nullable, column of a schema.
#[derive(Debug)]
pub struct Field {
    pub name: String,
    pub data_type: DataType,
    pub is_nullable: bool,
}

impl Field {
    pub fn new(name: String, data_type: DataType, is_nullable: bool) -> (r: Self)
        ensures
            r.name@ == name@,
            r.data_type == data_type,
            r.is_nullable == is_nullable,
    {
        Field { name, data_type, is_nullable }
    }

    pub fn is_nullable(&self) -> (r: bool)
        ensures
            r == self.is_nullable,
    {
        self.is_nullable
    }

    pub fn data_type(&self) -> (r: &DataType)
        ensures
            *r == self.data_type,
    {
        &self.data_type
    }
}

} // verus!
