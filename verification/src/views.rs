//! The models of the executable tree types: recursive view functions from
//! the tree to the ghost `Node`, with the facts relating a modelled
//! sequence or entry list to its elements.

use vstd::prelude::*;

use crate::element::{YamlElement, YamlMap};
use crate::model::Node;

verus! {

/// The model of an optional string.
pub open spec fn opt_view(o: Option<String>) -> Option<Seq<char>> {
    match o {
        Some(s) => Some(s@),
        None => None,
    }
}

/// The model of a tree node.
pub open spec fn elem_view(e: YamlElement) -> Node
    decreases e,
{
    match e {
        YamlElement::Scalar(s, t) => Node::Scalar { text: s@, tag: opt_view(t) },
        YamlElement::Mapping(m, t) => Node::Mapping {
            entries: entries_view(m.entries@),
            tag: opt_view(t),
        },
        YamlElement::Sequence(v, t) => Node::Sequence { elems: set_view(v@), tag: opt_view(t) },
        YamlElement::Alias(a) => Node::Alias { referent: a@ },
        YamlElement::Empty => Node::Empty,
    }
}

/// The model of a sequence of boxed nodes, element by element.
pub open spec fn set_view(s: Seq<Box<YamlElement>>) -> Seq<Node>
    decreases s,
{
    if s.len() == 0 {
        Seq::empty()
    } else {
        set_view(s.drop_last()).push(elem_view(*s.last()))
    }
}

/// The model of a map's entry list, pair by pair.
pub open spec fn entries_view(es: Seq<(String, Box<YamlElement>)>) -> Seq<(Seq<char>, Node)>
    decreases es,
{
    if es.len() == 0 {
        Seq::empty()
    } else {
        entries_view(es.drop_last()).push((es.last().0@, elem_view(*es.last().1)))
    }
}

/// A modelled sequence is as long as the sequence it models.
pub broadcast proof fn lemma_set_view_len(s: Seq<Box<YamlElement>>)
    ensures
        #[trigger] set_view(s).len() == s.len(),
    decreases s.len(),
{
    if s.len() > 0 {
        lemma_set_view_len(s.drop_last());
    }
}

/// A modelled sequence models its elements position by position.
pub broadcast proof fn lemma_set_view_index(s: Seq<Box<YamlElement>>, i: int)
    requires
        0 <= i < s.len(),
    ensures
        #[trigger] set_view(s)[i] == elem_view(*s[i]),
    decreases s.len(),
{
    lemma_set_view_len(s);
    if i < s.len() - 1 {
        lemma_set_view_index(s.drop_last(), i);
    }
}

/// A modelled entry list is as long as the entry list it models.
pub broadcast proof fn lemma_entries_view_len(es: Seq<(String, Box<YamlElement>)>)
    ensures
        #[trigger] entries_view(es).len() == es.len(),
    decreases es.len(),
{
    if es.len() > 0 {
        lemma_entries_view_len(es.drop_last());
    }
}

/// A modelled entry list models its pairs position by position.
pub broadcast proof fn lemma_entries_view_index(es: Seq<(String, Box<YamlElement>)>, i: int)
    requires
        0 <= i < es.len(),
    ensures
        #[trigger] entries_view(es)[i] == (es[i].0@, elem_view(*es[i].1)),
    decreases es.len(),
{
    lemma_entries_view_len(es);
    if i < es.len() - 1 {
        lemma_entries_view_index(es.drop_last(), i);
    }
}

/// The facts relating a modelled sequence or entry list to its elements.
pub broadcast group group_views {
    lemma_set_view_len,
    lemma_set_view_index,
    lemma_entries_view_len,
    lemma_entries_view_index,
}

impl View for YamlElement {
    type V = Node;

    open spec fn view(&self) -> Node {
        elem_view(*self)
    }
}

impl View for YamlMap {
    type V = Seq<(Seq<char>, Node)>;

    open spec fn view(&self) -> Seq<(Seq<char>, Node)> {
        entries_view(self.entries@)
    }
}

} // verus!
