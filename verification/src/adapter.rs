//! The node adapter: a configuration-time registry of element kinds and
//! attribute schema, and the attribute application boundary.
//!
//! The set of node kinds is closed: it is registered once when the host is
//! configured, and the engine consults it when templates are described and
//! when dynamic attributes are applied. A declared attribute takes values of
//! its declared type; the absent value clears it back off the node. An
//! unknown attribute name, or a value whose shape matches neither, is
//! dropped and the node is left unchanged; this library applies that one
//! policy consistently.

use vstd::prelude::*;

use crate::graph::Graph;
use crate::values::{AttrValueModel, AttributeValue};

verus! {

/// The declared type of an attribute in the schema.
#[derive(Clone, Copy, PartialEq, Eq, Structural, Debug)]
pub enum AttrType {
    Text,
    Int,
    Bool,
}

/// Whether a wire value has the shape an attribute's declared type demands.
pub open spec fn value_matches(ty: AttrType, v: AttrValueModel) -> bool {
    match ty {
        AttrType::Text => v is Text,
        AttrType::Int => v is Int,
        AttrType::Bool => v is Bool,
    }
}

/// Marker for the default element kind, named as a generated schema module
/// would name it.
#[allow(non_camel_case_types)]
#[derive(Clone, Copy, PartialEq, Eq, Structural, Debug)]
pub struct node;

impl node {
    /// The tag under which this kind is registered.
    pub const TAG_NAME: &'static str = "node";
}

/// The closed, configuration-time set of element kinds and the attribute
/// schema shared by all of them.
pub struct ElementRegistry {
    tags: Vec<String>,
    attrs: vstd::hash_map::StringHashMap<AttrType>,
}

impl ElementRegistry {
    /// The registered element tags.
    pub closed spec fn tag_set(self) -> Seq<Seq<char>> {
        self.tags@.map_values(|t: String| t@)
    }

    /// Whether `tag` names a registered element kind.
    pub open spec fn knows_tag(self, tag: Seq<char>) -> bool {
        self.tag_set().contains(tag)
    }

    /// The declared attribute schema: name to type.
    pub closed spec fn attr_schema(self) -> Map<Seq<char>, AttrType> {
        self.attrs@
    }

    /// An empty registry.
    pub fn new() -> (r: ElementRegistry)
        ensures
            r.tag_set() == Seq::<Seq<char>>::empty(),
            r.attr_schema() == Map::<Seq<char>, AttrType>::empty(),
    {
        let r = ElementRegistry { tags: Vec::new(), attrs: vstd::hash_map::StringHashMap::new() };
        proof {
            assert(r.tag_set() =~= Seq::<Seq<char>>::empty());
        }
        r
    }

    /// Whether `tag` names a registered element kind (executable form).
    pub fn has_tag(&self, tag: &String) -> (r: bool)
        ensures
            r == self.knows_tag(tag@),
    {
        let len = self.tags.len();
        let mut i: usize = 0;
        while i < len
            invariant
                i <= len,
                len == self.tags@.len(),
                forall|j: int| 0 <= j < i ==> self.tag_set()[j] != tag@,
            decreases len - i,
        {
            if self.tags[i] == *tag {
                proof {
                    assert(self.tag_set()[i as int] == tag@);
                }
                return true;
            }
            proof {
                assert(self.tag_set()[i as int] == self.tags@[i as int]@);
            }
            i += 1;
        }
        proof {
            if self.knows_tag(tag@) {
                let j = choose|j: int|
                    0 <= j < self.tag_set().len() && self.tag_set()[j] == tag@;
                assert(false);
            }
        }
        false
    }

    /// Registers an element kind; registering the same tag again is a no-op.
    pub fn register_element(&mut self, tag: String)
        ensures
            final(self).knows_tag(tag@),
            final(self).attr_schema() == old(self).attr_schema(),
            final(self).tag_set() == (if old(self).knows_tag(tag@) {
                old(self).tag_set()
            } else {
                old(self).tag_set().push(tag@)
            }),
    {
        if !self.has_tag(&tag) {
            let ghost pre = self.tag_set();
            self.tags.push(tag);
            proof {
                assert(self.tag_set() =~= pre.push(self.tags@.last()@));
                assert(self.tag_set()[self.tag_set().len() - 1] == self.tags@.last()@);
            }
        }
    }

    /// Declares an attribute's type in the schema, replacing any prior
    /// declaration of that name.
    pub fn register_attribute(&mut self, name: String, ty: AttrType)
        ensures
            final(self).attr_schema() == old(self).attr_schema().insert(name@, ty),
            final(self).tag_set() == old(self).tag_set(),
    {
        self.attrs.insert(name, ty);
    }

    /// Applies attribute `name` with `value` to live node `n`. If the
    /// schema declares the name and the value's shape matches its type, the
    /// value is recorded; the absent value clears the attribute instead, as
    /// removing an optional piece of node data does. Otherwise the value is
    /// dropped and nothing changes.
    pub fn apply_attribute(&self, g: &mut Graph, n: usize, name: &String, value: &AttributeValue)
        -> (applied: bool)
        requires
            old(g).wf(),
            old(g).is_live(n as int),
        ensures
            final(g).wf(),
            applied == (self.attr_schema().contains_key(name@) && (value_matches(
                self.attr_schema()[name@],
                value@,
            ) || value@ is Absent)),
            applied ==> {
                &&& final(g).node_count() == old(g).node_count()
                &&& final(g).attrs_of(n as int) == (if value@ is Absent {
                    old(g).attrs_of(n as int).remove(name@)
                } else {
                    old(g).attrs_of(n as int).insert(name@, value@)
                })
                &&& final(g).is_live(n as int)
                &&& final(g).parent_of(n as int) == old(g).parent_of(n as int)
                &&& final(g).children_of(n as int) == old(g).children_of(n as int)
                &&& final(g).tag_of(n as int) == old(g).tag_of(n as int)
                &&& forall|m: int|
                    0 <= m < old(g).node_count() && m != n as int ==> old(g).node_same(
                        *final(g),
                        m,
                    )
            },
            !applied ==> *final(g) == *old(g),
    {
        let ty = match self.attrs.get(name.as_str()) {
            Some(t) => *t,
            None => {
                return false;
            },
        };
        if let AttributeValue::Absent = value {
            g.remove_attr(n, name.as_str());
            return true;
        }
        let shape_ok = match (ty, value) {
            (AttrType::Text, AttributeValue::Text(_)) => true,
            (AttrType::Int, AttributeValue::Int(_)) => true,
            (AttrType::Bool, AttributeValue::Bool(_)) => true,
            _ => false,
        };
        if !shape_ok {
            return false;
        }
        g.set_attr(n, name.clone(), value.duplicate());
        true
    }
}

} // verus!
