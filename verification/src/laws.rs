//! General properties of the library, stated and proved over the models
//! its contracts use.

use vstd::prelude::*;

use crate::builder::{
    attach, build_spec, init_state, lemma_run_steps, lemma_steps_append, register, run, step,
    steps, BuildModel, DocModel, FrameModel,
};
use crate::events::EventModel;
use crate::model::{
    insert_entry, lemma_insert_absent, lemma_insert_lookup, lookup, node_get, Node,
};

verus! {

/// Re-registering an anchor with a second node makes subsequent resolution
/// of that anchor return the second node, not the first: registration is
/// last-write-wins.
pub proof fn law_last_write_wins(
    anchors: Seq<(Seq<char>, Node)>,
    a: Seq<char>,
    n1: Node,
    n2: Node,
)
    ensures
        lookup(insert_entry(insert_entry(anchors, a, n1), a, n2), a) == Some(n2),
{
    lemma_insert_lookup(insert_entry(anchors, a, n1), a, n2, a);
}

/// Key access on any non-mapping node, and access to an unbound key on a
/// mapping node, yield the absent node — never a failure.
pub proof fn law_get_total(n: Node, key: Seq<char>)
    ensures
        !(n matches Node::Mapping { .. }) ==> node_get(n, key) == Node::Empty,
        (n matches Node::Mapping { entries, .. } && lookup(entries, key) is None) ==> node_get(
            n,
            key,
        ) == Node::Empty,
{
}

/// Whether this event would register something under the anchor name `a`:
/// a scalar registers at once, a container start registers when its end
/// arrives.
pub open spec fn event_registers(e: EventModel, a: Seq<char>) -> bool {
    match e {
        EventModel::Scalar { anchor, .. } => anchor == Some(a),
        EventModel::SequenceStart { anchor, .. } => anchor == Some(a),
        EventModel::MappingStart { anchor, .. } => anchor == Some(a),
        _ => false,
    }
}

/// Whether this open container will not register under the anchor name `a`
/// when it closes.
pub open spec fn frame_avoids(f: FrameModel, a: Seq<char>) -> bool {
    match f {
        FrameModel::InSeq { anchor, .. } => anchor != Some(a),
        FrameModel::InMap { anchor, .. } => anchor != Some(a),
    }
}

/// One step on an event that does not register under `a` keeps what `a`
/// resolves to, and keeps every open container avoiding `a`.
proof fn lemma_step_keeps_anchor(s: BuildModel, e: EventModel, a: Seq<char>, n: Node)
    requires
        step(s, e) is Some,
        lookup(s.anchors, a) == Some(n),
        !event_registers(e, a),
        forall|k: int| 0 <= k < s.stack.len() ==> frame_avoids(#[trigger] s.stack[k], a),
    ensures
        lookup(step(s, e).unwrap().anchors, a) == Some(n),
        forall|k: int|
            0 <= k < step(s, e).unwrap().stack.len() ==> frame_avoids(
                #[trigger] step(s, e).unwrap().stack[k],
                a,
            ),
{
    let s2 = step(s, e).unwrap();
    match e {
        EventModel::Scalar { value, anchor, tag } => {
            let n0 = Node::Scalar { text: value, tag };
            let s1 = register(s, anchor, n0);
            match anchor {
                Some(b) => lemma_insert_lookup(s.anchors, b, n0, a),
                None => {},
            }
            assert(lookup(s1.anchors, a) == Some(n));
            assert(s2.anchors == s1.anchors);
        },
        EventModel::SequenceEnd => {
            match s.stack.last() {
                FrameModel::InSeq { elems, anchor, tag } => {
                    let n0 = Node::Sequence { elems, tag };
                    let popped = BuildModel { stack: s.stack.drop_last(), ..s };
                    assert(frame_avoids(s.stack[s.stack.len() - 1], a));
                    match anchor {
                        Some(b) => lemma_insert_lookup(s.anchors, b, n0, a),
                        None => {},
                    }
                    assert(lookup(register(popped, anchor, n0).anchors, a) == Some(n));
                },
                FrameModel::InMap { .. } => {
                    assert(false);
                },
            }
        },
        EventModel::MappingEnd => {
            match s.stack.last() {
                FrameModel::InMap { entries, pending, anchor, tag } => {
                    let n0 = Node::Mapping { entries, tag };
                    let popped = BuildModel { stack: s.stack.drop_last(), ..s };
                    assert(frame_avoids(s.stack[s.stack.len() - 1], a));
                    match anchor {
                        Some(b) => lemma_insert_lookup(s.anchors, b, n0, a),
                        None => {},
                    }
                    assert(lookup(register(popped, anchor, n0).anchors, a) == Some(n));
                },
                FrameModel::InSeq { .. } => {
                    assert(false);
                },
            }
        },
        _ => {},
    }
}

/// Folding the remaining events over a state in which `a` resolves to `n`
/// keeps that resolution to the end, as long as no remaining event and no
/// open container registers under `a`.
proof fn lemma_run_keeps_anchor(
    events: Seq<EventModel>,
    i: int,
    s: BuildModel,
    a: Seq<char>,
    n: Node,
)
    requires
        run(events, i, s) is Some,
        lookup(s.anchors, a) == Some(n),
        forall|j: int| i <= j < events.len() ==> !event_registers(#[trigger] events[j], a),
        forall|k: int| 0 <= k < s.stack.len() ==> frame_avoids(#[trigger] s.stack[k], a),
    ensures
        lookup(run(events, i, s).unwrap().anchors, a) == Some(n),
    decreases events.len() - i,
{
    if events[i] == EventModel::StreamEnd && s.stack.len() == 0 {
    } else {
        let s2 = step(s, events[i]).unwrap();
        lemma_step_keeps_anchor(s, events[i], a, n);
        lemma_run_keeps_anchor(events, i + 1, s2, a, n);
    }
}

/// For a scalar event carrying anchor `a` in a document in which no other
/// event carries `a` and no stream end precedes the scalar, a later alias
/// referencing `a` resolves — through the finished document's anchor
/// table — to a node equal in content to that scalar.
pub proof fn law_anchored_scalar_resolves(
    events: Seq<EventModel>,
    i: int,
    value: Seq<char>,
    a: Seq<char>,
    tag: Option<Seq<char>>,
)
    requires
        build_spec(events) is Some,
        0 <= i < events.len(),
        events[i] == (EventModel::Scalar { value, anchor: Some(a), tag }),
        forall|j: int|
            0 <= j < events.len() && j != i ==> !event_registers(#[trigger] events[j], a),
        forall|j: int| 0 <= j < i ==> events[j] != EventModel::StreamEnd,
    ensures
        lookup(build_spec(events).unwrap().anchors, a) == Some(Node::Scalar { text: value, tag }),
{
    lemma_walk_to_scalar(events, 0, init_state(), i, value, a, tag);
}

/// Walk the fold from position `j` up to the anchored scalar at `i`, then
/// keep the registration to the end.
proof fn lemma_walk_to_scalar(
    events: Seq<EventModel>,
    j: int,
    s: BuildModel,
    i: int,
    value: Seq<char>,
    a: Seq<char>,
    tag: Option<Seq<char>>,
)
    requires
        0 <= j <= i < events.len(),
        run(events, j, s) == build_spec(events),
        build_spec(events) is Some,
        events[i] == (EventModel::Scalar { value, anchor: Some(a), tag }),
        forall|k: int|
            j <= k < events.len() && k != i ==> !event_registers(#[trigger] events[k], a),
        forall|k: int| j <= k < i ==> events[k] != EventModel::StreamEnd,
        forall|k: int| 0 <= k < s.stack.len() ==> frame_avoids(#[trigger] s.stack[k], a),
    ensures
        lookup(build_spec(events).unwrap().anchors, a) == Some(Node::Scalar { text: value, tag }),
    decreases i - j,
{
    let n = Node::Scalar { text: value, tag };
    if j == i {
        let s1 = register(s, Some(a), n);
        let s2 = step(s, events[i]).unwrap();
        lemma_insert_lookup(s.anchors, a, n, a);
        assert(lookup(s1.anchors, a) == Some(n));
        assert(s2.anchors == s1.anchors);
        assert(forall|k: int|
            0 <= k < s2.stack.len() ==> frame_avoids(#[trigger] s2.stack[k], a));
        lemma_run_keeps_anchor(events, i + 1, s2, a, n);
    } else {
        let s2 = step(s, events[j]).unwrap();
        lemma_step_frames_avoid(s, events[j], a);
        lemma_walk_to_scalar(events, j + 1, s2, i, value, a, tag);
    }
}

/// Folding a single event is one step.
proof fn lemma_steps_one(s: BuildModel, e: EventModel)
    ensures
        steps(s, seq![e]) == step(s, e),
{
    let evs = seq![e];
    assert(evs[0] == e);
    assert(evs.subrange(1, 1) =~= Seq::<EventModel>::empty());
    match step(s, e) {
        Some(s2) => {
            assert(steps(s2, evs.subrange(1, 1)) == Some(s2));
        },
        None => {},
    }
}

/// A node that a build can produce: no absent node anywhere, and the keys
/// of every mapping distinct.
pub open spec fn wf_node(n: Node) -> bool
    decreases n,
{
    match n {
        Node::Scalar { .. } => true,
        Node::Alias { .. } => true,
        Node::Empty => false,
        Node::Sequence { elems, .. } => wf_nodes(elems),
        Node::Mapping { entries, .. } => wf_entries(entries) && distinct_keys(entries),
    }
}

/// Every node of the sequence is well formed.
pub open spec fn wf_nodes(elems: Seq<Node>) -> bool
    decreases elems,
{
    if elems.len() == 0 {
        true
    } else {
        wf_node(elems[0]) && wf_nodes(elems.subrange(1, elems.len() as int))
    }
}

/// Every value of the entry list is well formed.
pub open spec fn wf_entries(entries: Seq<(Seq<char>, Node)>) -> bool
    decreases entries,
{
    if entries.len() == 0 {
        true
    } else {
        wf_node(entries[0].1) && wf_entries(entries.subrange(1, entries.len() as int))
    }
}

/// No two entries share a key.
pub open spec fn distinct_keys(entries: Seq<(Seq<char>, Node)>) -> bool {
    forall|i: int, j: int|
        0 <= i < j < entries.len() ==> (#[trigger] entries[i]).0 != (#[trigger] entries[j]).0
}

/// The canonical event sequence of a node: the events, without anchors,
/// whose assembly yields the node back.
pub open spec fn node_events(n: Node) -> Seq<EventModel>
    decreases n,
{
    match n {
        Node::Scalar { text, tag } => seq![
            EventModel::Scalar { value: text, anchor: None, tag },
        ],
        Node::Sequence { elems, tag } => seq![EventModel::SequenceStart { anchor: None, tag }]
            + seq_events(elems) + seq![EventModel::SequenceEnd],
        Node::Mapping { entries, tag } => seq![EventModel::MappingStart { anchor: None, tag }]
            + map_events(entries) + seq![EventModel::MappingEnd],
        Node::Alias { referent } => seq![EventModel::Alias { anchor: referent }],
        Node::Empty => Seq::empty(),
    }
}

/// The canonical events of a sequence's elements, in order.
pub open spec fn seq_events(elems: Seq<Node>) -> Seq<EventModel>
    decreases elems,
{
    if elems.len() == 0 {
        Seq::empty()
    } else {
        node_events(elems[0]) + seq_events(elems.subrange(1, elems.len() as int))
    }
}

/// The canonical events of a mapping's entries, in order: each key as a
/// bare scalar, then the value's events.
pub open spec fn map_events(entries: Seq<(Seq<char>, Node)>) -> Seq<EventModel>
    decreases entries,
{
    if entries.len() == 0 {
        Seq::empty()
    } else {
        seq![EventModel::Scalar { value: entries[0].0, anchor: None, tag: None }] + node_events(
            entries[0].1,
        ) + map_events(entries.subrange(1, entries.len() as int))
    }
}

/// Assembling the canonical events of a well-formed node, at any position
/// that accepts a node, attaches exactly that node: the rebuilt node
/// reproduces the variant, the children and their order.
pub proof fn law_node_round_trip(s: BuildModel, n: Node)
    requires
        wf_node(n),
        attach(s, n) is Some,
        s.stack.len() == 0 ==> ((n matches Node::Mapping { .. }) || (n
            matches Node::Sequence { .. })),
    ensures
        steps(s, node_events(n)) == attach(s, n),
    decreases n, 1int,
{
    match n {
        Node::Scalar { text, tag } => {
            let e = EventModel::Scalar { value: text, anchor: None, tag };
            let evs = node_events(n);
            assert(evs == seq![e]);
            assert(evs[0] == e);
            let s2 = step(s, e).unwrap();
            lemma_steps_one(s, e);
            assert(steps(s, evs) == Some(s2));
        },
        Node::Alias { referent } => {
            let e = EventModel::Alias { anchor: referent };
            let evs = node_events(n);
            assert(evs == seq![e]);
            let s2 = step(s, e).unwrap();
            lemma_steps_one(s, e);
            assert(steps(s, evs) == Some(s2));
        },
        Node::Sequence { elems, tag } => {
            let e_open = EventModel::SequenceStart { anchor: None, tag };
            let e_close = EventModel::SequenceEnd;
            let frame = FrameModel::InSeq { elems: Seq::empty(), anchor: None, tag };
            let s_open = BuildModel { stack: s.stack.push(frame), ..s };
            assert(step(s, e_open) == Some(s_open));
            lemma_seq_items(s_open, elems);
            let s_items = BuildModel {
                stack: s_open.stack.update(
                    s_open.stack.len() - 1,
                    FrameModel::InSeq { elems: Seq::empty() + elems, anchor: None, tag },
                ),
                ..s_open
            };
            assert(steps(s_open, seq_events(elems)) == Some(s_items));
            assert(Seq::empty() + elems =~= elems);
            assert(s_items.stack.last() == (FrameModel::InSeq { elems, anchor: None, tag }));
            let popped = BuildModel { stack: s_items.stack.drop_last(), ..s_items };
            assert(popped.stack =~= s.stack);
            assert(popped == s);
            assert(step(s_items, e_close) == attach(s, n));
            let evs = node_events(n);
            assert(evs == seq![e_open] + seq_events(elems) + seq![e_close]);
            lemma_steps_append(s, seq![e_open] + seq_events(elems), seq![e_close]);
            lemma_steps_append(s, seq![e_open], seq_events(elems));
            lemma_steps_one(s, e_open);
            assert(steps(s, seq![e_open]) == Some(s_open));
            lemma_steps_one(s_items, e_close);
            assert(steps(s_items, seq![e_close]) == attach(s, n));
        },
        Node::Mapping { entries, tag } => {
            let e_open = EventModel::MappingStart { anchor: None, tag };
            let e_close = EventModel::MappingEnd;
            let frame = FrameModel::InMap {
                entries: Seq::empty(),
                pending: None,
                anchor: None,
                tag,
            };
            let s_open = BuildModel { stack: s.stack.push(frame), ..s };
            assert(step(s, e_open) == Some(s_open));
            assert(distinct_keys(Seq::<(Seq<char>, Node)>::empty() + entries));
            lemma_map_items(s_open, Seq::empty(), entries);
            let s_items = BuildModel {
                stack: s_open.stack.update(
                    s_open.stack.len() - 1,
                    FrameModel::InMap {
                        entries: Seq::empty() + entries,
                        pending: None,
                        anchor: None,
                        tag,
                    },
                ),
                ..s_open
            };
            assert(steps(s_open, map_events(entries)) == Some(s_items));
            assert(Seq::empty() + entries =~= entries);
            assert(s_items.stack.last() == (FrameModel::InMap {
                entries,
                pending: None,
                anchor: None,
                tag,
            }));
            let popped = BuildModel { stack: s_items.stack.drop_last(), ..s_items };
            assert(popped.stack =~= s.stack);
            assert(popped == s);
            assert(step(s_items, e_close) == attach(s, n));
            let evs = node_events(n);
            assert(evs == seq![e_open] + map_events(entries) + seq![e_close]);
            lemma_steps_append(s, seq![e_open] + map_events(entries), seq![e_close]);
            lemma_steps_append(s, seq![e_open], map_events(entries));
            lemma_steps_one(s, e_open);
            assert(steps(s, seq![e_open]) == Some(s_open));
            lemma_steps_one(s_items, e_close);
            assert(steps(s_items, seq![e_close]) == attach(s, n));
        },
        Node::Empty => {},
    }
}

/// Assembling the canonical events of well-formed elements, inside an open
/// sequence, appends exactly those elements in order.
proof fn lemma_seq_items(s: BuildModel, elems: Seq<Node>)
    requires
        wf_nodes(elems),
        s.stack.len() > 0,
        s.stack.last() matches FrameModel::InSeq { .. },
    ensures
        steps(s, seq_events(elems)) == Some(
            BuildModel {
                stack: s.stack.update(
                    s.stack.len() - 1,
                    match s.stack.last() {
                        FrameModel::InSeq { elems: acc, anchor, tag } => FrameModel::InSeq {
                            elems: acc + elems,
                            anchor,
                            tag,
                        },
                        f => f,
                    },
                ),
                ..s
            },
        ),
    decreases elems, 0int,
{
    let top = s.stack.last();
    match top {
        FrameModel::InSeq { elems: acc, anchor, tag } => {
            if elems.len() == 0 {
                assert(acc + elems =~= acc);
                assert(s.stack.update(s.stack.len() - 1, top) =~= s.stack);
                assert(steps(s, seq_events(elems)) == Some(s));
                assert(BuildModel {
                    stack: s.stack.update(
                        s.stack.len() - 1,
                        FrameModel::InSeq { elems: acc + elems, anchor, tag },
                    ),
                    ..s
                } == s);
            } else {
                let head = elems[0];
                let rest = elems.subrange(1, elems.len() as int);
                assert(decreases_to!(elems => head));
                law_node_round_trip(s, head);
                let s1 = attach(s, head).unwrap();
                assert(s1.stack.last() == (FrameModel::InSeq {
                    elems: acc.push(head),
                    anchor,
                    tag,
                }));
                lemma_seq_items(s1, rest);
                lemma_steps_append(s, node_events(head), seq_events(rest));
                let s2 = steps(s1, seq_events(rest)).unwrap();
                assert(acc.push(head) + rest =~= acc + elems);
                assert(s1.stack.update(s1.stack.len() - 1, FrameModel::InSeq {
                    elems: acc.push(head) + rest,
                    anchor,
                    tag,
                }) =~= s.stack.update(s.stack.len() - 1, FrameModel::InSeq {
                    elems: acc + elems,
                    anchor,
                    tag,
                }));
            }
        },
        FrameModel::InMap { .. } => {},
    }
}

/// Assembling the canonical events of well-formed entries, inside an open
/// mapping whose collected keys and remaining keys are all distinct,
/// appends exactly those entries in order.
proof fn lemma_map_items(s: BuildModel, acc: Seq<(Seq<char>, Node)>, entries: Seq<(Seq<char>, Node)>)
    requires
        wf_entries(entries),
        distinct_keys(acc + entries),
        s.stack.len() > 0,
        s.stack.last() matches FrameModel::InMap { entries: a, pending: None, .. } && a == acc,
    ensures
        steps(s, map_events(entries)) == Some(
            BuildModel {
                stack: s.stack.update(
                    s.stack.len() - 1,
                    match s.stack.last() {
                        FrameModel::InMap { entries: a, pending, anchor, tag } => FrameModel::InMap {
                            entries: a + entries,
                            pending: None,
                            anchor,
                            tag,
                        },
                        f => f,
                    },
                ),
                ..s
            },
        ),
    decreases entries, 0int,
{
    let top = s.stack.last();
    match top {
        FrameModel::InMap { entries: a, pending, anchor, tag } => {
            if entries.len() == 0 {
                assert(acc + entries =~= acc);
                assert(s.stack.update(s.stack.len() - 1, top) =~= s.stack);
                assert(steps(s, map_events(entries)) == Some(s));
                assert(BuildModel {
                    stack: s.stack.update(
                        s.stack.len() - 1,
                        FrameModel::InMap { entries: acc + entries, pending: None, anchor, tag },
                    ),
                    ..s
                } == s);
            } else {
                let k = entries[0].0;
                let v = entries[0].1;
                let rest = entries.subrange(1, entries.len() as int);
                let e_key = EventModel::Scalar { value: k, anchor: None, tag: None };
                // the key scalar becomes the pending key
                let s_key = BuildModel {
                    stack: s.stack.update(
                        s.stack.len() - 1,
                        FrameModel::InMap { entries: acc, pending: Some(k), anchor, tag },
                    ),
                    ..s
                };
                assert(step(s, e_key) == Some(s_key));
                // the value attaches under the pending key
                assert(decreases_to!(entries => entries[0]));
                law_node_round_trip(s_key, v);
                let s1 = attach(s_key, v).unwrap();
                // the key is new, so insertion appends the pair
                assert(forall|i: int|
                    0 <= i < acc.len() ==> (acc + entries)[i] == (#[trigger] acc[i]));
                assert((acc + entries)[acc.len() as int] == entries[0]);
                assert(forall|i: int| 0 <= i < acc.len() ==> (#[trigger] acc[i]).0 != k);
                lemma_insert_absent(acc, k, v);
                assert(insert_entry(acc, k, v) =~= acc.push((k, v)));
                assert(s1.stack.last() == (FrameModel::InMap {
                    entries: acc.push((k, v)),
                    pending: None,
                    anchor,
                    tag,
                }));
                assert(acc.push((k, v)) + rest =~= acc + entries);
                lemma_map_items(s1, acc.push((k, v)), rest);
                lemma_steps_append(s, seq![e_key] + node_events(v), map_events(rest));
                lemma_steps_append(s, seq![e_key], node_events(v));
                lemma_steps_one(s, e_key);
                assert(steps(s, seq![e_key]) == Some(s_key));
                assert(map_events(entries) == seq![e_key] + node_events(v) + map_events(rest));
                assert(s1.stack.update(s1.stack.len() - 1, FrameModel::InMap {
                    entries: acc.push((k, v)) + rest,
                    pending: None,
                    anchor,
                    tag,
                }) =~= s.stack.update(s.stack.len() - 1, FrameModel::InMap {
                    entries: acc + entries,
                    pending: None,
                    anchor,
                    tag,
                }));
            }
        },
        FrameModel::InSeq { .. } => {},
    }
}

/// A whole document holding one well-formed container `c` and nothing
/// else assembles to a document whose root is exactly the one-element
/// sequence of `c`, with no anchor registered.
pub proof fn law_document_round_trip(c: Node)
    requires
        wf_node(c),
        (c matches Node::Mapping { .. }) || (c matches Node::Sequence { .. }),
    ensures
        build_spec(
            seq![EventModel::StreamStart, EventModel::DocumentStart] + node_events(c) + seq![
                EventModel::DocumentEnd,
                EventModel::StreamEnd,
            ],
        ) == Some(DocModel { root: seq![c], anchors: Seq::empty() }),
{
    let evs = seq![EventModel::StreamStart, EventModel::DocumentStart] + node_events(c) + seq![
        EventModel::DocumentEnd,
        EventModel::StreamEnd,
    ];
    let s0 = init_state();
    let len = node_events(c).len() as int;
    assert(evs[0] == EventModel::StreamStart);
    assert(evs[1] == EventModel::DocumentStart);
    assert(step(s0, evs[0]) == Some(s0));
    assert(step(s0, evs[1]) == Some(s0));
    law_node_round_trip(s0, c);
    let s1 = attach(s0, c).unwrap();
    assert(s1.root =~= seq![c]);
    assert(evs.subrange(2, 2 + len) =~= node_events(c));
    lemma_run_steps(evs, 2, len, s0);
    assert(evs[2 + len] == EventModel::DocumentEnd);
    assert(evs[2 + len + 1] == EventModel::StreamEnd);
    assert(step(s1, EventModel::DocumentEnd) == Some(s1));
    assert(run(evs, 2 + len + 1, s1) == Some(
        DocModel { root: s1.root, anchors: s1.anchors },
    ));
    assert(run(evs, 0, s0) == run(evs, 1, s0));
    assert(run(evs, 1, s0) == run(evs, 2, s0));
    assert(run(evs, 2, s0) == run(evs, 2 + len, s1));
    assert(run(evs, 2 + len, s1) == run(evs, 2 + len + 1, s1));
    assert(DocModel { root: s1.root, anchors: s1.anchors } == DocModel {
        root: seq![c],
        anchors: Seq::empty(),
    });
}

/// One step on an event that does not register under `a` keeps every open
/// container avoiding `a`.
proof fn lemma_step_frames_avoid(s: BuildModel, e: EventModel, a: Seq<char>)
    requires
        step(s, e) is Some,
        !event_registers(e, a),
        forall|k: int| 0 <= k < s.stack.len() ==> frame_avoids(#[trigger] s.stack[k], a),
    ensures
        forall|k: int|
            0 <= k < step(s, e).unwrap().stack.len() ==> frame_avoids(
                #[trigger] step(s, e).unwrap().stack[k],
                a,
            ),
{
}

} // verus!
