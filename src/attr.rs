use vstd::prelude::*;

use crate::token::TextTag;

verus! {

/// Runtime identifier of an attribute's type.
#[derive(Clone, Copy, Debug, PartialEq, Eq, Structural)]
pub enum AttrType {
    /// A single character, attached to every one-character text token.
    Char,
    /// A [TextTag], attached to every text token.
    Tag,
    /// An attribute type defined by a resolver, told apart by its number.
    Custom(u64),
}

/// An attribute value. Its type is given by [type_of].
#[derive(Clone, Copy, Debug, PartialEq, Eq, Structural)]
pub enum AttrValue {
    Char(char),
    Tag(TextTag),
    Custom { kind: u64, value: u64 },
}

/// The type of an attribute value.
pub open spec fn type_of(v: AttrValue) -> AttrType {
    match v {
        AttrValue::Char(_) => AttrType::Char,
        AttrValue::Tag(_) => AttrType::Tag,
        AttrValue::Custom { kind, .. } => AttrType::Custom(kind),
    }
}

impl AttrValue {
    /// The type of this value.
    pub fn attr_type(&self) -> (r: AttrType)
        ensures
            r == type_of(*self),
    {
        match self {
            AttrValue::Char(_) => AttrType::Char,
            AttrValue::Tag(_) => AttrType::Tag,
            AttrValue::Custom { kind, .. } => AttrType::Custom(*kind),
        }
    }
}

} // verus!
