//! Plain value vocabulary shared by the whole engine: externally issued node
//! identifiers, reactive scope identifiers, attribute values, and the static
//! template attributes.

use vstd::prelude::*;

verus! {

/// Identifier assigned by the external diff engine to one graph node, scoped
/// to a single root. Id 0 is reserved for the root anchor node.
#[derive(Clone, Copy, PartialEq, Eq, Structural, Debug, Hash)]
pub struct ElementId(pub usize);

/// Identifier for one reactive computation (a scope of the diff engine).
#[derive(Clone, Copy, PartialEq, Eq, Structural, Debug, Hash)]
pub struct ScopeId(pub usize);

/// A value carried by a `SetAttribute` operation.
///
/// The wire vocabulary is closed: text, integer, boolean, the reserved
/// back-reference binding (carrying the handle to bind), and the absent
/// value. Values of host-specific dynamic types stay outside the engine; the
/// host converts them to this vocabulary at the boundary.
#[derive(Clone, Debug)]
pub enum AttributeValue {
    Text(String),
    Int(i64),
    Bool(bool),
    /// The reserved back-reference attribute's payload: the handle to bind.
    EntityRef(usize),
    /// No value: applying it clears a declared attribute back off the node.
    Absent,
}

/// Spec-level image of an [`AttributeValue`], with text as a character
/// sequence so that two values compare structurally.
pub enum AttrValueModel {
    Text(Seq<char>),
    Int(i64),
    Bool(bool),
    EntityRef(usize),
    Absent,
}

impl View for AttributeValue {
    type V = AttrValueModel;

    open spec fn view(&self) -> AttrValueModel {
        match self {
            AttributeValue::Text(s) => AttrValueModel::Text(s@),
            AttributeValue::Int(v) => AttrValueModel::Int(*v),
            AttributeValue::Bool(b) => AttrValueModel::Bool(*b),
            AttributeValue::EntityRef(h) => AttrValueModel::EntityRef(*h),
            AttributeValue::Absent => AttrValueModel::Absent,
        }
    }
}

impl AttributeValue {
    /// The text payload, if this value is text.
    pub fn as_string(&self) -> (r: Option<&String>)
        ensures
            match r {
                Some(s) => self@ == AttrValueModel::Text(s@),
                None => forall|s: Seq<char>| self@ != AttrValueModel::Text(s),
            },
    {
        match self {
            AttributeValue::Text(s) => Some(s),
            _ => None,
        }
    }

    /// The integer payload, if this value is an integer.
    pub fn as_i64(&self) -> (r: Option<i64>)
        ensures
            match r {
                Some(v) => self@ == AttrValueModel::Int(v),
                None => forall|v: i64| self@ != AttrValueModel::Int(v),
            },
    {
        match self {
            AttributeValue::Int(v) => Some(*v),
            _ => None,
        }
    }

    /// A copy of this value with the same model.
    pub fn duplicate(&self) -> (r: AttributeValue)
        ensures
            r@ == self@,
    {
        match self {
            AttributeValue::Text(s) => AttributeValue::Text(s.clone()),
            AttributeValue::Int(v) => AttributeValue::Int(*v),
            AttributeValue::Bool(b) => AttributeValue::Bool(*b),
            AttributeValue::EntityRef(h) => AttributeValue::EntityRef(*h),
            AttributeValue::Absent => AttributeValue::Absent,
        }
    }

    /// The boolean payload, if this value is a boolean.
    pub fn as_bool(&self) -> (r: Option<bool>)
        ensures
            match r {
                Some(b) => self@ == AttrValueModel::Bool(b),
                None => forall|b: bool| self@ != AttrValueModel::Bool(b),
            },
    {
        match self {
            AttributeValue::Bool(b) => Some(*b),
            _ => None,
        }
    }
}

/// A static (literal) attribute of a template node: applied once when the
/// template is instantiated.
#[derive(Clone, Debug)]
pub struct StaticTemplateAttribute {
    pub name: String,
    pub value: String,
    pub namespace: Option<String>,
}

/// Failure to read a template attribute as a static one.
#[derive(Clone, Copy, PartialEq, Eq, Structural, Debug)]
pub enum FromTemplateAttributeError {
    NotStatic,
}

} // verus!
