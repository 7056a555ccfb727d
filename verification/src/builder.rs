//! The document builder: a consumer of the event stream that assembles the
//! tree, registers anchors, and returns the finished document.
//!
//! The builder walks the events left to right, keeping a stack of open
//! containers that mirrors the nesting of the start events seen so far. The
//! whole pass is specified by the transition function `step` over the ghost
//! state `BuildModel`, and `from_events` is proved to return exactly what
//! folding `step` over the events yields.

use vstd::prelude::*;

use crate::element::{clone_tag, YamlElement, YamlMap, YamlSet};
use crate::views::{elem_view, entries_view, opt_view, set_view};
use crate::events::{events_view, EventModel, YamlEvent};
use crate::model::{insert_entry, lookup, Node};

verus! {

broadcast use {
    crate::views::group_views,
};

/// The model of one open container: a sequence collecting its elements, or
/// a mapping alternating between key and value positions. `pending` holds
/// the decoded key awaiting its value; each frame keeps the anchor and tag
/// of its start event for the moment the container closes.
#[verifier::ext_equal]
pub enum FrameModel {
    InSeq { elems: Seq<Node>, anchor: Option<Seq<char>>, tag: Option<Seq<char>> },
    InMap {
        entries: Seq<(Seq<char>, Node)>,
        pending: Option<Seq<char>>,
        anchor: Option<Seq<char>>,
        tag: Option<Seq<char>>,
    },
}

/// The model of the builder mid-pass: the finished top-level nodes, the
/// anchor table so far, and the stack of open containers, innermost last.
#[verifier::ext_equal]
pub struct BuildModel {
    pub root: Seq<Node>,
    pub anchors: Seq<(Seq<char>, Node)>,
    pub stack: Seq<FrameModel>,
}

/// The model of a finished document.
#[verifier::ext_equal]
pub struct DocModel {
    pub root: Seq<Node>,
    pub anchors: Seq<(Seq<char>, Node)>,
}

/// The state a build starts from: nothing built, nothing anchored, no open
/// container.
pub open spec fn init_state() -> BuildModel {
    BuildModel { root: Seq::empty(), anchors: Seq::empty(), stack: Seq::empty() }
}

/// Register `n` under the anchor name, when the event carried one;
/// re-registration overwrites (last-write-wins).
pub open spec fn register(s: BuildModel, anchor: Option<Seq<char>>, n: Node) -> BuildModel {
    match anchor {
        Some(a) => BuildModel { anchors: insert_entry(s.anchors, a, n), ..s },
        None => s,
    }
}

/// Attach the finished node `n` at the current position: append it to the
/// innermost open sequence, bind it to the pending key of the innermost
/// open mapping, or append it to the root when no container is open.
/// Absence when the innermost open mapping expects a key: a key position
/// accepts no finished node.
pub open spec fn attach(s: BuildModel, n: Node) -> Option<BuildModel> {
    if s.stack.len() == 0 {
        Some(BuildModel { root: s.root.push(n), ..s })
    } else {
        let top = s.stack.last();
        match top {
            FrameModel::InSeq { elems, anchor, tag } => Some(
                BuildModel {
                    stack: s.stack.update(
                        s.stack.len() - 1,
                        FrameModel::InSeq { elems: elems.push(n), anchor, tag },
                    ),
                    ..s
                },
            ),
            FrameModel::InMap { entries, pending, anchor, tag } => match pending {
                Some(k) => Some(
                    BuildModel {
                        stack: s.stack.update(
                            s.stack.len() - 1,
                            FrameModel::InMap {
                                entries: insert_entry(entries, k, n),
                                pending: None,
                                anchor,
                                tag,
                            },
                        ),
                        ..s
                    },
                ),
                None => None,
            },
        }
    }
}

/// Whether a container may open at the current position: at the top level,
/// inside an open sequence, or in the value position of an open mapping —
/// but not in a key position, which only accepts a scalar.
pub open spec fn may_open(s: BuildModel) -> bool {
    s.stack.len() == 0 || match s.stack.last() {
        FrameModel::InSeq { .. } => true,
        FrameModel::InMap { pending, .. } => pending is Some,
    }
}

/// One transition of the builder on one event. Absence is a structural
/// violation: the event cannot legally appear in the current state, and the
/// whole build is abandoned.
pub open spec fn step(s: BuildModel, e: EventModel) -> Option<BuildModel> {
    match e {
        EventModel::StreamStart | EventModel::DocumentStart | EventModel::DocumentEnd => if s.stack.len() == 0 {
            Some(s)
        } else {
            None
        },
        EventModel::StreamEnd => None,
        EventModel::Scalar { value, anchor, tag } => {
            if s.stack.len() == 0 {
                None
            } else {
                let n = Node::Scalar { text: value, tag };
                let s1 = register(s, anchor, n);
                match s1.stack.last() {
                    FrameModel::InMap { entries, pending: None, anchor: fa, tag: ft } => Some(
                        BuildModel {
                            stack: s1.stack.update(
                                s1.stack.len() - 1,
                                FrameModel::InMap {
                                    entries,
                                    pending: Some(value),
                                    anchor: fa,
                                    tag: ft,
                                },
                            ),
                            ..s1
                        },
                    ),
                    _ => attach(s1, n),
                }
            }
        },
        EventModel::SequenceStart { anchor, tag } => if may_open(s) {
            Some(
                BuildModel {
                    stack: s.stack.push(FrameModel::InSeq { elems: Seq::empty(), anchor, tag }),
                    ..s
                },
            )
        } else {
            None
        },
        EventModel::MappingStart { anchor, tag } => if may_open(s) {
            Some(
                BuildModel {
                    stack: s.stack.push(
                        FrameModel::InMap {
                            entries: Seq::empty(),
                            pending: None,
                            anchor,
                            tag,
                        },
                    ),
                    ..s
                },
            )
        } else {
            None
        },
        EventModel::SequenceEnd => {
            if s.stack.len() == 0 {
                None
            } else {
                match s.stack.last() {
                    FrameModel::InSeq { elems, anchor, tag } => {
                        let n = Node::Sequence { elems, tag };
                        let popped = BuildModel { stack: s.stack.drop_last(), ..s };
                        attach(register(popped, anchor, n), n)
                    },
                    FrameModel::InMap { .. } => None,
                }
            }
        },
        EventModel::MappingEnd => {
            if s.stack.len() == 0 {
                None
            } else {
                match s.stack.last() {
                    FrameModel::InMap { entries, pending: None, anchor, tag } => {
                        let n = Node::Mapping { entries, tag };
                        let popped = BuildModel { stack: s.stack.drop_last(), ..s };
                        attach(register(popped, anchor, n), n)
                    },
                    _ => None,
                }
            }
        },
        EventModel::Alias { anchor } => {
            if s.stack.len() == 0 {
                None
            } else {
                let n = Node::Alias { referent: anchor };
                match s.stack.last() {
                    FrameModel::InMap { pending: None, .. } => None,
                    _ => attach(s, n),
                }
            }
        },
    }
}

/// Fold `step` over the events from position `i`. The build finishes when a
/// stream-end event arrives with no container open; running out of events
/// first, or any structural violation, is absence.
pub open spec fn run(events: Seq<EventModel>, i: int, s: BuildModel) -> Option<DocModel>
    decreases events.len() - i,
{
    if i < 0 || i >= events.len() {
        None
    } else if events[i] == EventModel::StreamEnd && s.stack.len() == 0 {
        Some(DocModel { root: s.root, anchors: s.anchors })
    } else {
        match step(s, events[i]) {
            Some(s2) => run(events, i + 1, s2),
            None => None,
        }
    }
}

/// What a whole build of `events` yields.
pub open spec fn build_spec(events: Seq<EventModel>) -> Option<DocModel> {
    run(events, 0, init_state())
}

/// Fold `step` over a whole event segment, with no stream-end handling.
pub open spec fn steps(s: BuildModel, evs: Seq<EventModel>) -> Option<BuildModel>
    decreases evs.len(),
{
    if evs.len() == 0 {
        Some(s)
    } else {
        match step(s, evs[0]) {
            Some(s2) => steps(s2, evs.subrange(1, evs.len() as int)),
            None => None,
        }
    }
}

/// Folding a concatenation is folding the two parts in order.
pub proof fn lemma_steps_append(s: BuildModel, evs1: Seq<EventModel>, evs2: Seq<EventModel>)
    ensures
        steps(s, evs1 + evs2) == match steps(s, evs1) {
            Some(s2) => steps(s2, evs2),
            None => None,
        },
    decreases evs1.len(),
{
    if evs1.len() == 0 {
        assert(evs1 + evs2 =~= evs2);
    } else {
        let all = evs1 + evs2;
        assert(all[0] == evs1[0]);
        match step(s, evs1[0]) {
            Some(s2) => {
                assert(all.subrange(1, all.len() as int) =~= evs1.subrange(
                    1,
                    evs1.len() as int,
                ) + evs2);
                lemma_steps_append(s2, evs1.subrange(1, evs1.len() as int), evs2);
            },
            None => {
                assert(steps(s, all) is None);
            },
        }
    }
}

/// When a segment of the events folds through `steps`, `run` continues
/// after the segment from the state the fold reached.
pub proof fn lemma_run_steps(events: Seq<EventModel>, i: int, k: int, s: BuildModel)
    requires
        0 <= i,
        0 <= k,
        i + k <= events.len(),
        steps(s, events.subrange(i, i + k)) is Some,
    ensures
        run(events, i, s) == run(events, i + k, steps(s, events.subrange(i, i + k)).unwrap()),
    decreases k,
{
    let seg = events.subrange(i, i + k);
    if k == 0 {
        assert(seg =~= Seq::<EventModel>::empty());
    } else {
        assert(seg[0] == events[i]);
        let s2 = step(s, events[i]).unwrap();
        assert(seg.subrange(1, seg.len() as int) =~= events.subrange(i + 1, i + k));
        lemma_run_steps(events, i + 1, k - 1, s2);
    }
}

/// One open container under construction.
enum Frame {
    InSeq { elems: YamlSet, anchor: Option<String>, tag: Option<String> },
    InMap { entries: YamlMap, pending: Option<String>, anchor: Option<String>, tag: Option<String> },
}

impl View for Frame {
    type V = FrameModel;

    closed spec fn view(&self) -> FrameModel {
        match self {
            Frame::InSeq { elems, anchor, tag } => FrameModel::InSeq {
                elems: set_view(elems@),
                anchor: opt_view(*anchor),
                tag: opt_view(*tag),
            },
            Frame::InMap { entries, pending, anchor, tag } => FrameModel::InMap {
                entries: entries@,
                pending: opt_view(*pending),
                anchor: opt_view(*anchor),
                tag: opt_view(*tag),
            },
        }
    }
}

/// The builder's working state.
struct Builder {
    root: YamlSet,
    anchors: YamlMap,
    stack: Vec<Frame>,
}

impl View for Builder {
    type V = BuildModel;

    closed spec fn view(&self) -> BuildModel {
        BuildModel {
            root: set_view(self.root@),
            anchors: self.anchors@,
            stack: self.stack@.map_values(|f: Frame| f@),
        }
    }
}

/// The finished document: the ordered top-level nodes and the anchor table.
pub struct YamlDocument {
    root: YamlSet,
    anchors: YamlMap,
}

impl View for YamlDocument {
    type V = DocModel;

    closed spec fn view(&self) -> DocModel {
        DocModel { root: set_view(self.root@), anchors: self.anchors@ }
    }
}

impl Builder {
    /// Register `node` under `anchor` when one is present, as `register`
    /// says.
    fn register_anchor(&mut self, anchor: &Option<String>, node: &YamlElement)
        ensures
            final(self)@ == register(old(self)@, opt_view(*anchor), node@),
    {
        match anchor {
            Some(a) => {
                self.anchors.insert(a.clone(), Box::new(node.deep_copy()));
                proof {
                    assert(final(self)@ =~~= register(
                        old(self)@,
                        opt_view(*anchor),
                        node@,
                    ));
                }
            },
            None => {
                proof {
                    assert(final(self)@ =~~= register(
                        old(self)@,
                        opt_view(*anchor),
                        node@,
                    ));
                }
            },
        }
    }

    /// Attach the finished `node` at the current position, as `attach`
    /// says; `false` reports the structural violation of a finished node in
    /// a key position.
    fn attach_node(&mut self, node: YamlElement) -> (ok: bool)
        ensures
            match attach(old(self)@, node@) {
                Some(s2) => ok && final(self)@ == s2,
                None => !ok,
            },
    {
        let ghost pre = self@;
        if self.stack.len() == 0 {
            self.root.push(Box::new(node));
            proof {
                assert(set_view(self.root@) =~~= pre.root.push(node@));
                assert(final(self)@ =~~= attach(pre, node@).unwrap());
            }
            true
        } else {
            let f = self.stack.pop().unwrap();
            match f {
                Frame::InSeq { elems, anchor, tag } => {
                    let mut elems = elems;
                    elems.push(Box::new(node));
                    self.stack.push(Frame::InSeq { elems, anchor, tag });
                    proof {
                        assert(self.stack@.map_values(|fr: Frame| fr@) =~~= pre.stack.update(
                            pre.stack.len() - 1,
                            self.stack@.last()@,
                        ));
                        assert(final(self)@ =~~= attach(pre, node@).unwrap());
                    }
                    true
                },
                Frame::InMap { entries, pending: Some(k), anchor, tag } => {
                    let mut entries = entries;
                    entries.insert(k, Box::new(node));
                    self.stack.push(Frame::InMap { entries, pending: None, anchor, tag });
                    proof {
                        assert(self.stack@.map_values(|fr: Frame| fr@) =~~= pre.stack.update(
                            pre.stack.len() - 1,
                            self.stack@.last()@,
                        ));
                        assert(final(self)@ =~~= attach(pre, node@).unwrap());
                    }
                    true
                },
                Frame::InMap { pending: None, .. } => false,
            }
        }
    }

    /// One transition on one event, as `step` says; `false` reports a
    /// structural violation, after which the build is abandoned.
    fn apply(&mut self, e: &YamlEvent) -> (ok: bool)
        ensures
            match step(old(self)@, e@) {
                Some(s2) => ok && final(self)@ == s2,
                None => !ok,
            },
    {
        match e {
            YamlEvent::StreamStart | YamlEvent::DocumentStart | YamlEvent::DocumentEnd => {
                self.stack.len() == 0
            },
            YamlEvent::StreamEnd => false,
            YamlEvent::Scalar { value, anchor, tag } => {
                if self.stack.len() == 0 {
                    false
                } else {
                    let node = YamlElement::Scalar(value.clone(), clone_tag(tag));
                    self.register_anchor(anchor, &node);
                    let ghost s1 = self@;
                    let top_expects_key = match &self.stack[self.stack.len() - 1] {
                        Frame::InMap { pending: None, .. } => true,
                        _ => false,
                    };
                    if top_expects_key {
                        let f = self.stack.pop().unwrap();
                        match f {
                            Frame::InMap { entries, pending: _, anchor: fa, tag: ft } => {
                                self.stack.push(
                                    Frame::InMap {
                                        entries,
                                        pending: Some(value.clone()),
                                        anchor: fa,
                                        tag: ft,
                                    },
                                );
                                proof {
                                    assert(self.stack@.map_values(|fr: Frame| fr@)
                                        =~~= s1.stack.update(
                                        s1.stack.len() - 1,
                                        self.stack@.last()@,
                                    ));
                                    assert(final(self)@ =~~= step(old(self)@, e@).unwrap());
                                }
                                true
                            },
                            _ => {
                                proof {
                                    assert(false);
                                }
                                false
                            },
                        }
                    } else {
                        self.attach_node(node)
                    }
                }
            },
            YamlEvent::SequenceStart { anchor, tag } => {
                if self.open_allowed() {
                    self.stack.push(
                        Frame::InSeq {
                            elems: Vec::new(),
                            anchor: clone_tag(anchor),
                            tag: clone_tag(tag),
                        },
                    );
                    proof {
                        assert(final(self)@ =~~= step(old(self)@, e@).unwrap());
                    }
                    true
                } else {
                    false
                }
            },
            YamlEvent::MappingStart { anchor, tag } => {
                if self.open_allowed() {
                    self.stack.push(
                        Frame::InMap {
                            entries: YamlMap::new(),
                            pending: None,
                            anchor: clone_tag(anchor),
                            tag: clone_tag(tag),
                        },
                    );
                    proof {
                        assert(final(self)@ =~~= step(old(self)@, e@).unwrap());
                    }
                    true
                } else {
                    false
                }
            },
            YamlEvent::SequenceEnd => {
                if self.stack.len() == 0 {
                    false
                } else {
                    let f = self.stack.pop().unwrap();
                    match f {
                        Frame::InSeq { elems, anchor, tag } => {
                            let node = YamlElement::Sequence(elems, tag);
                            self.register_anchor(&anchor, &node);
                            self.attach_node(node)
                        },
                        Frame::InMap { .. } => false,
                    }
                }
            },
            YamlEvent::MappingEnd => {
                if self.stack.len() == 0 {
                    false
                } else {
                    let f = self.stack.pop().unwrap();
                    match f {
                        Frame::InMap { entries, pending: None, anchor, tag } => {
                            let node = YamlElement::Mapping(entries, tag);
                            self.register_anchor(&anchor, &node);
                            self.attach_node(node)
                        },
                        _ => false,
                    }
                }
            },
            YamlEvent::Alias { anchor } => {
                if self.stack.len() == 0 {
                    false
                } else {
                    let top_expects_key = match &self.stack[self.stack.len() - 1] {
                        Frame::InMap { pending: None, .. } => true,
                        _ => false,
                    };
                    if top_expects_key {
                        false
                    } else {
                        self.attach_node(YamlElement::Alias(anchor.clone()))
                    }
                }
            },
        }
    }

    /// Whether a container may open here, as `may_open` says.
    fn open_allowed(&self) -> (r: bool)
        ensures
            r == may_open(self@),
    {
        if self.stack.len() == 0 {
            true
        } else {
            match &self.stack[self.stack.len() - 1] {
                Frame::InSeq { .. } => true,
                Frame::InMap { pending, .. } => pending.is_some(),
            }
        }
    }
}

impl YamlDocument {
    /// Assemble a document from a complete event sequence, exactly as
    /// `build_spec` says: the fold of `step` over the events up to a
    /// stream-end at the top level, and absence on any structural
    /// violation or truncated stream.
    pub fn from_events(events: &Vec<YamlEvent>) -> (r: Option<YamlDocument>)
        ensures
            match build_spec(events_view(events@)) {
                Some(d) => r matches Some(doc) && doc@ == d,
                None => r is None,
            },
    {
        let ghost evs = events_view(events@);
        let mut b = Builder { root: Vec::new(), anchors: YamlMap::new(), stack: Vec::new() };
        proof {
            assert(b@ =~~= init_state());
        }
        let mut i: usize = 0;
        while i < events.len()
            invariant
                i <= events.len(),
                evs == events_view(events@),
                evs.len() == events.len(),
                run(evs, i as int, b@) == build_spec(evs),
            decreases events.len() - i,
        {
            let is_stream_end = match &events[i] {
                YamlEvent::StreamEnd => true,
                _ => false,
            };
            proof {
                assert(evs[i as int] == events@[i as int]@);
            }
            if is_stream_end && b.stack.len() == 0 {
                let doc = YamlDocument { root: b.root, anchors: b.anchors };
                proof {
                    assert(doc@ =~~= run(evs, i as int, b@).unwrap());
                }
                return Some(doc);
            }
            let ok = b.apply(&events[i]);
            if !ok {
                return None;
            }
            i = i + 1;
        }
        None
    }

    /// The ordered top-level sequence of the document.
    pub fn root(&self) -> (r: &YamlSet)
        ensures
            set_view(r@) == self@.root,
    {
        &self.root
    }

    /// Resolve an alias node against the document's anchor table: the
    /// registered snapshot for an alias whose referent is registered,
    /// absence for an unregistered referent and for every non-alias node.
    pub fn resolve_alias(&self, alias: &YamlElement) -> (r: Option<Box<YamlElement>>)
        ensures
            match alias@ {
                Node::Alias { referent } => match lookup(self@.anchors, referent) {
                    Some(n) => r matches Some(b) && b@ == n,
                    None => r is None,
                },
                _ => r is None,
            },
    {
        if let YamlElement::Alias(a) = alias {
            match self.anchors.get(a.as_str()) {
                Some(e) => Some(Box::new(e.deep_copy())),
                None => None,
            }
        } else {
            None
        }
    }
}

} // verus!
