//! What a traverser carries: an element of the graph or a value computed from one, pairs and
//! groups of them. The values themselves (property values, ids and labels as values) are of a
//! type `O` that these steps only move and copy.
use vstd::prelude::*;

verus! {

/// An element of the graph as the steps read it: its id and its label, each as the value it
/// becomes, and its properties by name.
#[derive(Debug)]
pub struct GraphElement<O> {
    pub id: O,
    pub label: O,
    pub properties: Vec<(String, O)>,
}

/// A value computed along a traversal.
#[derive(Debug)]
pub enum TravelObject<O> {
    /// no value
    Nothing,
    /// from the ".value()" or ".values('xxx')" step;
    Value(O),
    /// from the ".properties('xxx')" step;
    Properties((String, O)),
    /// from the ".valueMap('xxx')" or ".elementMap('xxx')" or ".propertyMap('xxx')" steps;
    ValueMap(Vec<(String, O)>),
    /// from the ".count()" step;
    Count(u64),
    /// from the ".sum()" step;
    Sum(O),
    Entry(O),
}

/// An element of the graph, or a value from outside it.
#[derive(Debug)]
pub enum Element<O> {
    InGraph(GraphElement<O>),
    OutGraph(TravelObject<O>),
}

/// What a traverser holds: one element, a key and a value, a collection, or a key and the
/// group of values under it.
#[derive(Debug)]
pub enum Entry<O> {
    Element(Element<O>),
    Pair(Element<O>, Element<O>),
    Collection(Vec<Element<O>>),
    Group(Element<O>, Vec<Element<O>>),
}

/// Why a step cannot take what it was asked for of an entry.
#[derive(Debug, Clone, Copy, PartialEq, Eq, Structural)]
pub enum FnExecError {
    /// The provided object does not have accessible keys.
    NoKeys,
    /// The provided object does not have accessible values.
    NoValues,
    /// The provided object is not a graph element.
    NotGraphElement,
    /// The provided object is not an element.
    NotElement,
}

/// The position of the first property named `name` from position `i` on, or -1 where there
/// is none.
pub open spec fn first_prop<O>(props: Seq<(String, O)>, name: Seq<char>, i: int) -> int
    decreases props.len() - i,
{
    if i < 0 || i >= props.len() {
        -1
    } else if props[i].0@ == name {
        i
    } else {
        first_prop(props, name, i + 1)
    }
}

/// The first position found is one with that name, from `i` on.
pub proof fn lemma_first_prop<O>(props: Seq<(String, O)>, name: Seq<char>, i: int)
    requires
        0 <= i,
    ensures
        first_prop(props, name, i) == -1 || (i <= first_prop(props, name, i) < props.len() && props[first_prop(props, name, i)].0@ == name),
    decreases props.len() - i,
{
    if i < props.len() && props[i].0@ != name {
        lemma_first_prop(props, name, i + 1);
    }
}

/// Whether the element has a property named `name`.
pub open spec fn has_prop<O>(g: GraphElement<O>, name: Seq<char>) -> bool {
    first_prop(g.properties@, name, 0) >= 0
}

/// The value of the first property of the element named `name`.
pub open spec fn prop_value<O>(g: GraphElement<O>, name: Seq<char>) -> O {
    g.properties@[first_prop(g.properties@, name, 0)].1
}

impl<O: Clone> GraphElement<O> {
    /// A copy of the value of the first property named `name`.
    pub fn get_property(&self, name: &String) -> (v: O)
        requires
            has_prop(*self, name@),
        ensures
            vstd::pervasive::cloned(prop_value(*self, name@), v),
    {
        let ghost props = self.properties@;
        let mut i: usize = 0;
        while i < self.properties.len()
            invariant
                props == self.properties@,
                0 <= i <= props.len(),
                first_prop(props, name@, 0) == first_prop(props, name@, i as int),
                first_prop(props, name@, 0) >= 0,
            decreases props.len() - i,
        {
            if self.properties[i].0 == *name {
                return self.properties[i].1.clone();
            }
            i = i + 1;
        }
        proof {
            assert(first_prop(props, name@, i as int) == -1);
        }
        self.properties[0].1.clone()
    }
}

} // verus!
