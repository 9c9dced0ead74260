//! Error kinds of parsing and of conversion across the host boundary.
use vstd::prelude::*;
use vstd::string::*;

verus! {

/// A field of a leaf schema (`Pset` or `PsetId`).
#[derive(Clone, Copy, Debug, PartialEq, Eq, Structural)]
pub enum LeafField {
    Id,
    Class,
    Value,
    ValueType,
}

/// Why a value could not be read as a leaf or as a tree.
#[derive(Clone, Copy, Debug, PartialEq, Eq, Structural)]
pub enum ParseError {
    /// The object holds a key that the leaf schema does not know.
    UnknownField,
    /// Two keys of the object name the same field (a name and its alias).
    DuplicateField(LeafField),
    /// A required field is absent.
    MissingField(LeafField),
    /// The value, or one of its fields, has the wrong shape.
    InvalidType,
}

/// Why a value could not cross the host boundary.
#[derive(Clone, Copy, Debug, PartialEq, Eq, Structural)]
pub enum ConversionError {
    UnrepresentablePrimitive,
}

/// The wire name of a field.
pub open spec fn field_name(f: LeafField) -> Seq<char> {
    match f {
        LeafField::Id => "id"@,
        LeafField::Class => "class"@,
        LeafField::Value => "value"@,
        LeafField::ValueType => "value-type"@,
    }
}

/// The message of an error.
pub open spec fn error_text(e: ParseError) -> Seq<char> {
    match e {
        ParseError::UnknownField => "unknown field"@,
        ParseError::DuplicateField(f) => "duplicate field `"@ + field_name(f) + "`"@,
        ParseError::MissingField(f) => "missing field `"@ + field_name(f) + "`"@,
        ParseError::InvalidType => "invalid type"@,
    }
}

fn field_name_str(f: LeafField) -> (r: &'static str)
    ensures
        r@ == field_name(f),
{
    match f {
        LeafField::Id => "id",
        LeafField::Class => "class",
        LeafField::Value => "value",
        LeafField::ValueType => "value-type",
    }
}

/// Renders an error as its message.
pub fn err_to_string(err: &ParseError) -> (r: String)
    ensures
        r@ == error_text(*err),
{
    match err {
        ParseError::UnknownField => String::from_str("unknown field"),
        ParseError::DuplicateField(f) => {
            let mut s = String::from_str("duplicate field `");
            s.append(field_name_str(*f));
            s.append("`");
            s
        },
        ParseError::MissingField(f) => {
            let mut s = String::from_str("missing field `");
            s.append(field_name_str(*f));
            s.append("`");
            s
        },
        ParseError::InvalidType => String::from_str("invalid type"),
    }
}

} // verus!
