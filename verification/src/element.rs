//! The executable tree: nodes, ordered maps of nodes, and the read-only
//! accessors over them.

use vstd::prelude::*;

use crate::model::{insert_entry, lookup, node_get, node_tag, Node};
use crate::views::{elem_view, entries_view, opt_view, set_view};

verus! {

broadcast use {
    crate::views::group_views,
};

/// An ordered sequence of nodes.
pub type YamlSet = Vec<Box<YamlElement>>;

/// A tree node as built from the event stream.
pub enum YamlElement {
    /// A leaf value: raw decoded text and an optional tag.
    Scalar(String, Option<String>),
    /// A mapping from string keys to nodes, with an optional tag.
    Mapping(YamlMap, Option<String>),
    /// An ordered sequence of nodes, with an optional tag.
    Sequence(YamlSet, Option<String>),
    /// A named back-reference to an anchored node, unresolved.
    Alias(String),
    /// The absent node, the result of a failed lookup.
    Empty,
}

/// An ordered mapping from string keys to nodes. Keys are unique; inserting
/// a key again replaces its value in place (last-write-wins).
pub struct YamlMap {
    pub entries: Vec<(String, Box<YamlElement>)>,
}

/// Relies on str::parse: which texts parse as `T`, and to what value, is
/// the affair of `T`'s `FromStr` implementation, so nothing is promised of
/// the result.
#[verifier::external_body]
fn parse_text<T: core::str::FromStr>(s: &String) -> (r: Option<T>) {
    s.parse().ok()
}

/// Clone an optional string, such as a tag or an anchor name.
pub(crate) fn clone_tag(t: &Option<String>) -> (r: Option<String>)
    ensures
        opt_view(r) == opt_view(*t),
{
    match t {
        Some(s) => Some(s.clone()),
        None => None,
    }
}

impl YamlElement {
    /// An independent copy of the whole sub-tree, equal to it in the model.
    pub fn deep_copy(&self) -> (r: YamlElement)
        ensures
            r@ == self@,
        decreases *self,
    {
        match self {
            YamlElement::Scalar(s, t) => YamlElement::Scalar(s.clone(), clone_tag(t)),
            YamlElement::Alias(a) => YamlElement::Alias(a.clone()),
            YamlElement::Empty => YamlElement::Empty,
            YamlElement::Sequence(v, t) => {
                let mut out: YamlSet = Vec::new();
                let mut i: usize = 0;
                while i < v.len()
                    invariant
                        i <= v.len(),
                        out@.len() == i,
                        *self matches YamlElement::Sequence(vv, _) && vv == *v,
                        forall|j: int| 0 <= j < i ==> elem_view(*out@[j]) == elem_view(*v@[j]),
                    decreases v.len() - i,
                {
                    proof {
                        assert(decreases_to!(*self => *v));
                        assert(decreases_to!(*v => v@));
                        assert(decreases_to!(v@ => v@[i as int]));
                        assert(decreases_to!(*self => *v@[i as int]));
                    }
                    let c = (*v[i]).deep_copy();
                    out.push(Box::new(c));
                    i = i + 1;
                }
                proof {
                    assert(set_view(out@) =~= set_view(v@));
                }
                YamlElement::Sequence(out, clone_tag(t))
            },
            YamlElement::Mapping(m, t) => {
                let mut out: Vec<(String, Box<YamlElement>)> = Vec::new();
                let mut i: usize = 0;
                while i < m.entries.len()
                    invariant
                        i <= m.entries.len(),
                        out@.len() == i,
                        *self matches YamlElement::Mapping(mm, _) && mm == *m,
                        forall|j: int| 0 <= j < i ==> out@[j].0@ == m.entries@[j].0@
                            && elem_view(*out@[j].1) == elem_view(*m.entries@[j].1),
                    decreases m.entries.len() - i,
                {
                    proof {
                        assert(decreases_to!(*self => *m));
                        assert(decreases_to!(*m => m.entries@));
                        assert(decreases_to!(m.entries@ => m.entries@[i as int]));
                        assert(decreases_to!(*self => *m.entries@[i as int].1));
                    }
                    let k = m.entries[i].0.clone();
                    let c = (*m.entries[i].1).deep_copy();
                    out.push((k, Box::new(c)));
                    i = i + 1;
                }
                proof {
                    assert(entries_view(out@) =~= entries_view(m.entries@));
                }
                YamlElement::Mapping(YamlMap { entries: out }, clone_tag(t))
            },
        }
    }

    /// The text of a scalar node parsed as `T`; absence for every other
    /// variant, and for text that `T` does not accept.
    pub fn as_scalar<T: core::str::FromStr>(&self) -> (r: Option<T>)
        ensures
            r is Some ==> self@ matches Node::Scalar { .. },
    {
        if let YamlElement::Scalar(s, _) = self {
            parse_text(s)
        } else {
            None
        }
    }

    /// The raw text of a scalar node; absence for every other variant.
    pub fn as_str(&self) -> (r: Option<&str>)
        ensures
            match self@ {
                Node::Scalar { text, .. } => r matches Some(s) && s@ == text,
                _ => r is None,
            },
    {
        if let YamlElement::Scalar(s, _) = self {
            Some(s.as_str())
        } else {
            None
        }
    }

    /// The entries of a mapping node; absence for every other variant.
    pub fn as_map(&self) -> (r: Option<&YamlMap>)
        ensures
            match self@ {
                Node::Mapping { entries, .. } => r matches Some(m) && m@ == entries,
                _ => r is None,
            },
    {
        if let YamlElement::Mapping(m, _) = self {
            Some(m)
        } else {
            None
        }
    }

    /// The elements of a sequence node, copied; an empty sequence for the
    /// absent node; absence for every other variant.
    pub fn as_vec(&self) -> (r: Option<YamlSet>)
        ensures
            match self@ {
                Node::Sequence { elems, .. } => r matches Some(v) && set_view(v@) == elems,
                Node::Empty => r matches Some(v) && v@.len() == 0,
                _ => r is None,
            },
    {
        match self {
            YamlElement::Sequence(_, _) => {
                if let YamlElement::Sequence(out, _) = self.deep_copy() {
                    Some(out)
                } else {
                    proof {
                        assert(false);
                    }
                    None
                }
            },
            YamlElement::Empty => Some(Vec::new()),
            _ => None,
        }
    }

    /// The carried tag for scalar and container nodes, copied; absence for
    /// aliases and the absent node.
    pub fn get_tag(&self) -> (r: Option<String>)
        ensures
            opt_view(r) == node_tag(self@),
    {
        match self {
            YamlElement::Scalar(_, t) => clone_tag(t),
            YamlElement::Mapping(_, t) => clone_tag(t),
            YamlElement::Sequence(_, t) => clone_tag(t),
            YamlElement::Alias(_) => None,
            YamlElement::Empty => None,
        }
    }

    /// Total key lookup: a copy of the value bound to `key` when this node
    /// is a mapping that binds it, and the absent node in every other case.
    pub fn get(&self, key: &str) -> (r: YamlElement)
        ensures
            r@ == node_get(self@, key@),
    {
        match self.as_map() {
            Some(m) => match m.get(key) {
                Some(v) => v.deep_copy(),
                None => YamlElement::Empty,
            },
            None => YamlElement::Empty,
        }
    }
}

impl YamlMap {
    /// The empty map.
    pub fn new() -> (m: YamlMap)
        ensures
            m@ == Seq::<(Seq<char>, Node)>::empty(),
    {
        let m = YamlMap { entries: Vec::new() };
        proof {
            assert(m@ =~= Seq::<(Seq<char>, Node)>::empty());
        }
        m
    }

    /// How many entries the map holds.
    pub fn len(&self) -> (n: usize)
        ensures
            n == self@.len(),
    {
        self.entries.len()
    }

    /// The value bound to `key`, or absence when `key` is unbound.
    pub fn get(&self, key: &str) -> (r: Option<&YamlElement>)
        ensures
            match lookup(self@, key@) {
                Some(n) => r matches Some(e) && e@ == n,
                None => r is None,
            },
    {
        let owned: String = key.to_owned();
        let mut i: usize = 0;
        while i < self.entries.len()
            invariant
                i <= self.entries.len(),
                owned@ == key@,
                forall|j: int| 0 <= j < i ==> self.entries@[j].0@ != key@,
            decreases self.entries.len() - i,
        {
            if self.entries[i].0 == owned {
                proof {
                    crate::model::lemma_lookup_found(self@, key@, i as int);
                }
                return Some(&*self.entries[i].1);
            }
            i = i + 1;
        }
        proof {
            crate::model::lemma_lookup_absent(self@, key@);
        }
        None
    }

    /// Whether `key` is bound in the map.
    pub fn contains_key(&self, key: &str) -> (r: bool)
        ensures
            r == (lookup(self@, key@) is Some),
    {
        self.get(key).is_some()
    }

    /// Bind `key` to `value`: replace the value in place when the key is
    /// already bound, append the pair otherwise.
    pub fn insert(&mut self, key: String, value: Box<YamlElement>)
        ensures
            final(self)@ == insert_entry(old(self)@, key@, elem_view(*value)),
    {
        let ghost old_entries = self@;
        let mut i: usize = 0;
        while i < self.entries.len()
            invariant
                old_entries == old(self)@,
                self@ == old_entries,
                i <= self.entries.len(),
                forall|j: int| 0 <= j < i ==> self.entries@[j].0@ != key@,
            decreases self.entries.len() - i,
        {
            if self.entries[i].0 == key {
                proof {
                    crate::model::lemma_insert_found(self@, key@, elem_view(*value), i as int);
                }
                self.entries[i] = (key, value);
                proof {
                    assert(self@ =~= old_entries.update(i as int, (key@, elem_view(*value))));
                }
                return ;
            }
            i = i + 1;
        }
        proof {
            crate::model::lemma_insert_absent(self@, key@, elem_view(*value));
        }
        self.entries.push((key, value));
        proof {
            assert(self@ =~= old_entries.push((key@, elem_view(*value))));
        }
    }

    /// A copy of the map, equal to it in the model.
    pub fn deep_copy(&self) -> (r: YamlMap)
        ensures
            r@ == self@,
    {
        YamlMap { entries: copy_entries(&self.entries) }
    }
}

/// Copy a map's entry list pair by pair.
fn copy_entries(es: &Vec<(String, Box<YamlElement>)>) -> (r: Vec<(String, Box<YamlElement>)>)
    ensures
        entries_view(r@) == entries_view(es@),
{
    let mut out: Vec<(String, Box<YamlElement>)> = Vec::new();
    let mut i: usize = 0;
    while i < es.len()
        invariant
            i <= es.len(),
            out@.len() == i,
            forall|j: int| 0 <= j < i ==> out@[j].0@ == es@[j].0@ && elem_view(*out@[j].1)
                == elem_view(*es@[j].1),
        decreases es.len() - i,
    {
        let k = es[i].0.clone();
        let c = (*es[i].1).deep_copy();
        out.push((k, Box::new(c)));
        i = i + 1;
    }
    proof {
        assert(entries_view(out@) =~= entries_view(es@));
    }
    out
}

} // verus!
