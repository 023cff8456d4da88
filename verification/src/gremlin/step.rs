//! Steps of a traversal that select, filter and project traversers.
use vstd::prelude::*;

use crate::gremlin::AsTag;
use crate::gremlin::traverser::{has_prop, prop_value, Element, Entry, FnExecError, TravelObject};

verus! {

/// Which entry of a traverser a select step takes.
#[derive(Debug, Clone, Copy, PartialEq, Eq, Structural)]
pub enum SelectKey {
    /// The traverser's current entry
    Current,
    /// The entry kept under a tag
    Tagged(AsTag),
}

impl SelectKey {
    pub fn get_tag(&self) -> (tag: Option<AsTag>)
        ensures
            tag == match *self {
                SelectKey::Current => None,
                SelectKey::Tagged(t) => Some(t),
            },
    {
        match self {
            SelectKey::Current => None,
            SelectKey::Tagged(t) => Some(*t),
        }
    }
}

/// What a `by(..)` modulator takes of a selected entry.
#[derive(Debug, Clone)]
pub enum ByModulating {
    Itself,
    Keys,
    Values,
    Id,
    Label,
    /// by("name")/by(values(name))
    Property(String),
    /// by(properties("name"))
    Properties(String),
    /// by(valueMap("name"))
    ValueMap(Vec<String>),
    Prepared,
}

/// Which of the entries kept under a tag a select step takes.
#[derive(Debug, Clone, Copy, PartialEq, Eq, Structural)]
pub enum Pop {
    First,
    Last,
    All,
    Mixed,
}

/// select forward and inline project:
/// select(keys) takes the current entry's keys, select(values) its values, select('a') the
/// entry tagged 'a', modulated by the `by(..)` that follows.
pub struct SelectOneStep {
    pop: Pop,
    key: SelectKey,
    by_mod: ByModulating,
    tag: Option<AsTag>,
}

/// The properties step: the named properties of the current element, each kept under `tag`
/// where there is one.
pub struct PropertiesStep {
    pub props: Vec<String>,
    pub tag: Option<AsTag>,
}

/// A filter of traversers by the element kept under a tag.
pub struct HasTag<F> {
    pub tag: AsTag,
    filter: F,
}

impl<F> HasTag<F> {
    /// The tag whose element is tested.
    pub closed spec fn spec_tag(&self) -> AsTag {
        self.tag
    }

    /// The filter that `filter` applies to the element kept under `tag`.
    pub closed spec fn spec_filter(&self) -> F {
        self.filter
    }

    pub fn new(tag: AsTag, filter: F) -> (has_tag: Self)
        ensures
            has_tag.spec_tag() == tag,
            has_tag.spec_filter() == filter,
    {
        HasTag { tag, filter }
    }
}

/// What an identity step message asks for: all properties of the element, or the named ones.
pub struct IdentityStepPb {
    pub is_all: bool,
    pub properties: Vec<String>,
}

/// The identity step: it hands each traverser on, tagged with `tag` where there is one, with
/// the properties it asks for kept on the traverser's vertex.
pub struct IdentityStep {
    pub step: IdentityStepPb,
    pub tag: Option<AsTag>,
}

/// What the identity step does to each traverser: keep the properties named in `props`
/// (where there are any to keep) and tag it with `tag`.
pub struct IdentityFunc {
    pub props: Option<Vec<String>>,
    pub tag: Option<AsTag>,
}

impl IdentityStep {
    /// The function of the step: properties are kept where the step asks for all of them or
    /// names some; otherwise none are.
    pub fn gen_map(self) -> (func: IdentityFunc)
        ensures
            func.tag == self.tag,
            func.props == (if self.step.is_all || self.step.properties@.len() > 0 {
                Some(self.step.properties)
            } else {
                None
            }),
    {
        let step = self.step;
        let is_all = step.is_all;
        let properties = step.properties;
        let props = if is_all || properties.len() > 0 {
            Some(properties)
        } else {
            None
        };
        IdentityFunc { props, tag: self.tag }
    }
}

/// Whether `by` can be taken of entry `e`: not by a prepared modulator, and by a property
/// of a graph element only where the element has that property.
pub open spec fn modulable<O>(by: ByModulating, e: Entry<O>) -> bool {
    match by {
        ByModulating::Prepared => false,
        ByModulating::Property(p) | ByModulating::Properties(p) => match e {
            Entry::Element(Element::InGraph(g)) => has_prop(g, p@),
            _ => true,
        },
        ByModulating::ValueMap(ps) => match e {
            Entry::Element(Element::InGraph(g)) => forall|i: int| 0 <= i < ps@.len() ==> has_prop(g, (#[trigger] ps@[i])@),
            _ => true,
        },
        _ => true,
    }
}

/// The error for an entry that is not a graph element.
pub open spec fn element_error<O>(e: Entry<O>) -> FnExecError {
    match e {
        Entry::Element(Element::OutGraph(_)) => FnExecError::NotGraphElement,
        _ => FnExecError::NotElement,
    }
}

impl ByModulating {
    /// What the modulator takes of a selected entry: the entry itself; the key of a pair or a
    /// group; the value of a pair or the values of a group; the id, the label, a property, a
    /// named property or a map of named properties of a graph element. An entry that has no
    /// such part is an error.
    pub fn modulate_by<O: Clone>(&self, selected_entry: Entry<O>) -> (r: Result<Entry<O>, FnExecError>)
        requires
            modulable(*self, selected_entry),
        ensures
            match *self {
                ByModulating::Itself => r == Ok::<Entry<O>, FnExecError>(selected_entry),
                ByModulating::Keys => match selected_entry {
                    Entry::Pair(k, _) => r == Ok::<Entry<O>, FnExecError>(Entry::Element(k)),
                    Entry::Group(k, _) => r == Ok::<Entry<O>, FnExecError>(Entry::Element(k)),
                    _ => r == Err::<Entry<O>, FnExecError>(FnExecError::NoKeys),
                },
                ByModulating::Values => match selected_entry {
                    Entry::Pair(_, v) => r == Ok::<Entry<O>, FnExecError>(Entry::Element(v)),
                    Entry::Group(_, vs) => r == Ok::<Entry<O>, FnExecError>(Entry::Collection(vs)),
                    _ => r == Err::<Entry<O>, FnExecError>(FnExecError::NoValues),
                },
                ByModulating::Id => match selected_entry {
                    Entry::Element(Element::InGraph(g)) => r == Ok::<Entry<O>, FnExecError>(
                        Entry::Element(Element::OutGraph(TravelObject::Value(g.id))),
                    ),
                    _ => r == Err::<Entry<O>, FnExecError>(element_error(selected_entry)),
                },
                ByModulating::Label => match selected_entry {
                    Entry::Element(Element::InGraph(g)) => r == Ok::<Entry<O>, FnExecError>(
                        Entry::Element(Element::OutGraph(TravelObject::Value(g.label))),
                    ),
                    _ => r == Err::<Entry<O>, FnExecError>(element_error(selected_entry)),
                },
                ByModulating::Property(p) => match selected_entry {
                    Entry::Element(Element::InGraph(g)) => match r {
                        Ok(Entry::Element(Element::OutGraph(TravelObject::Value(v)))) => vstd::pervasive::cloned(prop_value(g, p@), v),
                        _ => false,
                    },
                    _ => r == Err::<Entry<O>, FnExecError>(element_error(selected_entry)),
                },
                ByModulating::Properties(p) => match selected_entry {
                    Entry::Element(Element::InGraph(g)) => match r {
                        Ok(Entry::Element(Element::OutGraph(TravelObject::Properties((name, v))))) => name@ == p@
                            && vstd::pervasive::cloned(prop_value(g, p@), v),
                        _ => false,
                    },
                    _ => r == Err::<Entry<O>, FnExecError>(element_error(selected_entry)),
                },
                ByModulating::ValueMap(ps) => match selected_entry {
                    Entry::Element(Element::InGraph(g)) => match r {
                        Ok(Entry::Element(Element::OutGraph(TravelObject::ValueMap(pairs)))) => pairs@.len() == ps@.len()
                            && forall|i: int| 0 <= i < ps@.len() ==> {
                                &&& (#[trigger] pairs@[i]).0@ == ps@[i]@
                                &&& vstd::pervasive::cloned(prop_value(g, ps@[i]@), pairs@[i].1)
                            },
                        _ => false,
                    },
                    _ => r == Err::<Entry<O>, FnExecError>(element_error(selected_entry)),
                },
                ByModulating::Prepared => false,
            },
    {
        match self {
            ByModulating::Itself => Ok(selected_entry),
            ByModulating::Keys => match selected_entry {
                Entry::Pair(k, _) => Ok(Entry::Element(k)),
                Entry::Group(k, _) => Ok(Entry::Element(k)),
                _ => Err(FnExecError::NoKeys),
            },
            ByModulating::Values => match selected_entry {
                Entry::Pair(_, v) => Ok(Entry::Element(v)),
                Entry::Group(_, v) => Ok(Entry::Collection(v)),
                _ => Err(FnExecError::NoValues),
            },
            ByModulating::Id => match selected_entry {
                Entry::Element(Element::InGraph(e)) => Ok(Entry::Element(Element::OutGraph(TravelObject::Value(e.id)))),
                Entry::Element(Element::OutGraph(_)) => Err(FnExecError::NotGraphElement),
                _ => Err(FnExecError::NotElement),
            },
            ByModulating::Label => match selected_entry {
                Entry::Element(Element::InGraph(e)) => Ok(Entry::Element(Element::OutGraph(TravelObject::Value(e.label)))),
                Entry::Element(Element::OutGraph(_)) => Err(FnExecError::NotGraphElement),
                _ => Err(FnExecError::NotElement),
            },
            ByModulating::Property(prop) => match selected_entry {
                Entry::Element(Element::InGraph(e)) => {
                    let prop_value = e.get_property(prop);
                    Ok(Entry::Element(Element::OutGraph(TravelObject::Value(prop_value))))
                },
                Entry::Element(Element::OutGraph(_)) => Err(FnExecError::NotGraphElement),
                _ => Err(FnExecError::NotElement),
            },
            ByModulating::Properties(prop) => match selected_entry {
                Entry::Element(Element::InGraph(e)) => {
                    let prop_value = e.get_property(prop);
                    Ok(Entry::Element(Element::OutGraph(TravelObject::Properties((prop.clone(), prop_value)))))
                },
                Entry::Element(Element::OutGraph(_)) => Err(FnExecError::NotGraphElement),
                _ => Err(FnExecError::NotElement),
            },
            ByModulating::ValueMap(props) => match selected_entry {
                Entry::Element(Element::InGraph(e)) => {
                    let mut prop_values: Vec<(String, O)> = Vec::new();
                    for k in 0..props.len()
                        invariant
                            prop_values@.len() == k,
                            forall|i: int| 0 <= i < props@.len() ==> has_prop(e, (#[trigger] props@[i])@),
                            forall|i: int| 0 <= i < k ==> {
                                &&& (#[trigger] prop_values@[i]).0@ == props@[i]@
                                &&& vstd::pervasive::cloned(prop_value(e, props@[i]@), prop_values@[i].1)
                            },
                    {
                        let prop_value = e.get_property(&props[k]);
                        prop_values.push((props[k].clone(), prop_value));
                    }
                    Ok(Entry::Element(Element::OutGraph(TravelObject::ValueMap(prop_values))))
                },
                Entry::Element(Element::OutGraph(_)) => Err(FnExecError::NotGraphElement),
                _ => Err(FnExecError::NotElement),
            },
            ByModulating::Prepared => {
                assert(false);
                Err(FnExecError::NotElement)
            },
        }
    }
}

} // verus!
