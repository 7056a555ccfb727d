//! Mathematical model of the document tree.
//!
//! `Node` is the ghost counterpart of the executable tree type: text is a
//! `Seq<char>`, container contents are sequences, and a mapping is an ordered
//! sequence of key/value pairs with the keys unique. All contracts of the
//! library are stated over this model.

use vstd::prelude::*;

verus! {

/// A tree node: a scalar leaf, a mapping, a sequence, an unresolved alias,
/// or the absent node.
#[verifier::ext_equal]
pub enum Node {
    Scalar { text: Seq<char>, tag: Option<Seq<char>> },
    Mapping { entries: Seq<(Seq<char>, Node)>, tag: Option<Seq<char>> },
    Sequence { elems: Seq<Node>, tag: Option<Seq<char>> },
    Alias { referent: Seq<char> },
    Empty,
}

/// The value bound to `key` in an ordered entry list: the first (and, when
/// keys are unique, only) pair whose key matches.
pub open spec fn lookup(entries: Seq<(Seq<char>, Node)>, key: Seq<char>) -> Option<Node>
    decreases entries.len(),
{
    if entries.len() == 0 {
        None
    } else if entries[0].0 == key {
        Some(entries[0].1)
    } else {
        lookup(entries.subrange(1, entries.len() as int), key)
    }
}

/// Last-write-wins insertion: when `key` is already bound its value is
/// replaced in place, keeping the entry's position; otherwise the new pair
/// goes to the end.
pub open spec fn insert_entry(
    entries: Seq<(Seq<char>, Node)>,
    key: Seq<char>,
    value: Node,
) -> Seq<(Seq<char>, Node)>
    decreases entries.len(),
{
    if entries.len() == 0 {
        seq![(key, value)]
    } else if entries[0].0 == key {
        seq![(key, value)] + entries.subrange(1, entries.len() as int)
    } else {
        seq![entries[0]] + insert_entry(entries.subrange(1, entries.len() as int), key, value)
    }
}

/// The tag carried by a node: present for scalars and both container kinds,
/// absent for aliases and the absent node.
pub open spec fn node_tag(n: Node) -> Option<Seq<char>> {
    match n {
        Node::Scalar { tag, .. } => tag,
        Node::Mapping { tag, .. } => tag,
        Node::Sequence { tag, .. } => tag,
        Node::Alias { .. } => None,
        Node::Empty => None,
    }
}

/// Total key lookup on a node: the bound value when `n` is a mapping that
/// binds `key`, and the absent node in every other case.
pub open spec fn node_get(n: Node, key: Seq<char>) -> Node {
    match n {
        Node::Mapping { entries, .. } => match lookup(entries, key) {
            Some(v) => v,
            None => Node::Empty,
        },
        _ => Node::Empty,
    }
}

/// When the first occurrence of `key` stands at position `j`, lookup
/// returns that pair's value.
pub proof fn lemma_lookup_found(entries: Seq<(Seq<char>, Node)>, key: Seq<char>, j: int)
    requires
        0 <= j < entries.len(),
        entries[j].0 == key,
        forall|i: int| 0 <= i < j ==> entries[i].0 != key,
    ensures
        lookup(entries, key) == Some(entries[j].1),
    decreases j,
{
    if j > 0 {
        let rest = entries.subrange(1, entries.len() as int);
        lemma_lookup_found(rest, key, j - 1);
    }
}

/// When no entry's key is `key`, lookup returns absence.
pub proof fn lemma_lookup_absent(entries: Seq<(Seq<char>, Node)>, key: Seq<char>)
    requires
        forall|i: int| 0 <= i < entries.len() ==> entries[i].0 != key,
    ensures
        lookup(entries, key) is None,
    decreases entries.len(),
{
    if entries.len() > 0 {
        let rest = entries.subrange(1, entries.len() as int);
        lemma_lookup_absent(rest, key);
    }
}

/// When the first occurrence of `key` stands at position `j`, insertion
/// replaces that pair in place.
pub proof fn lemma_insert_found(
    entries: Seq<(Seq<char>, Node)>,
    key: Seq<char>,
    value: Node,
    j: int,
)
    requires
        0 <= j < entries.len(),
        entries[j].0 == key,
        forall|i: int| 0 <= i < j ==> entries[i].0 != key,
    ensures
        insert_entry(entries, key, value) =~= entries.update(j, (key, value)),
    decreases j,
{
    let rest = entries.subrange(1, entries.len() as int);
    if j == 0 {
        assert(insert_entry(entries, key, value) =~= entries.update(0, (key, value)));
    } else {
        lemma_insert_found(rest, key, value, j - 1);
        assert(insert_entry(entries, key, value) =~= entries.update(j, (key, value)));
    }
}

/// When no entry's key is `key`, insertion appends the new pair.
pub proof fn lemma_insert_absent(entries: Seq<(Seq<char>, Node)>, key: Seq<char>, value: Node)
    requires
        forall|i: int| 0 <= i < entries.len() ==> entries[i].0 != key,
    ensures
        insert_entry(entries, key, value) =~= entries.push((key, value)),
    decreases entries.len(),
{
    if entries.len() > 0 {
        let rest = entries.subrange(1, entries.len() as int);
        lemma_insert_absent(rest, key, value);
    }
}

/// After an insertion, looking the inserted key up returns the new value,
/// and every other key is bound as before.
pub proof fn lemma_insert_lookup(
    entries: Seq<(Seq<char>, Node)>,
    key: Seq<char>,
    value: Node,
    other: Seq<char>,
)
    ensures
        lookup(insert_entry(entries, key, value), key) == Some(value),
        other != key ==> lookup(insert_entry(entries, key, value), other) == lookup(
            entries,
            other,
        ),
    decreases entries.len(),
{
    if entries.len() == 0 {
        let one = insert_entry(entries, key, value);
        assert(one == seq![(key, value)]);
        assert(one.subrange(1, 1) =~= Seq::<(Seq<char>, Node)>::empty());
        assert(lookup(Seq::<(Seq<char>, Node)>::empty(), other) is None);
        if other != key {
            assert(lookup(one, other) == lookup(one.subrange(1, 1), other));
        }
    } else if entries[0].0 == key {
        let rest = entries.subrange(1, entries.len() as int);
        let new = insert_entry(entries, key, value);
        assert(new == seq![(key, value)] + rest);
        assert(new[0] == (key, value));
        assert(new.subrange(1, new.len() as int) =~= rest);
    } else {
        let rest = entries.subrange(1, entries.len() as int);
        let new = insert_entry(entries, key, value);
        assert(new == seq![entries[0]] + insert_entry(rest, key, value));
        assert(new[0] == entries[0]);
        assert(new.subrange(1, new.len() as int) =~= insert_entry(rest, key, value));
        lemma_insert_lookup(rest, key, value, other);
    }
}

} // verus!
