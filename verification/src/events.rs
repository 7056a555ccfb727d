//! The typed events handed in by the external event source, and their model.

use vstd::prelude::*;

use crate::views::opt_view;

verus! {

/// One structural parse event, as produced by the external lexical stage.
#[allow(inconsistent_fields)]
pub enum YamlEvent {
    StreamStart,
    StreamEnd,
    DocumentStart,
    DocumentEnd,
    /// A leaf value: its decoded text, an optional anchor to register it
    /// under, and an optional tag.
    Scalar { value: String, anchor: Option<String>, tag: Option<String> },
    /// Opens a sequence; the matching `SequenceEnd` closes it.
    SequenceStart { anchor: Option<String>, tag: Option<String> },
    SequenceEnd,
    /// Opens a mapping; the matching `MappingEnd` closes it.
    MappingStart { anchor: Option<String>, tag: Option<String> },
    MappingEnd,
    /// A back-reference to the anchor named by `anchor`.
    Alias { anchor: String },
}

/// The model of one event.
#[allow(inconsistent_fields)]
pub enum EventModel {
    StreamStart,
    StreamEnd,
    DocumentStart,
    DocumentEnd,
    Scalar { value: Seq<char>, anchor: Option<Seq<char>>, tag: Option<Seq<char>> },
    SequenceStart { anchor: Option<Seq<char>>, tag: Option<Seq<char>> },
    SequenceEnd,
    MappingStart { anchor: Option<Seq<char>>, tag: Option<Seq<char>> },
    MappingEnd,
    Alias { anchor: Seq<char> },
}

impl View for YamlEvent {
    type V = EventModel;

    open spec fn view(&self) -> EventModel {
        match self {
            YamlEvent::StreamStart => EventModel::StreamStart,
            YamlEvent::StreamEnd => EventModel::StreamEnd,
            YamlEvent::DocumentStart => EventModel::DocumentStart,
            YamlEvent::DocumentEnd => EventModel::DocumentEnd,
            YamlEvent::Scalar { value, anchor, tag } => EventModel::Scalar {
                value: value@,
                anchor: opt_view(*anchor),
                tag: opt_view(*tag),
            },
            YamlEvent::SequenceStart { anchor, tag } => EventModel::SequenceStart {
                anchor: opt_view(*anchor),
                tag: opt_view(*tag),
            },
            YamlEvent::SequenceEnd => EventModel::SequenceEnd,
            YamlEvent::MappingStart { anchor, tag } => EventModel::MappingStart {
                anchor: opt_view(*anchor),
                tag: opt_view(*tag),
            },
            YamlEvent::MappingEnd => EventModel::MappingEnd,
            YamlEvent::Alias { anchor } => EventModel::Alias { anchor: anchor@ },
        }
    }
}

/// The model of a whole event sequence.
pub open spec fn events_view(s: Seq<YamlEvent>) -> Seq<EventModel> {
    s.map_values(|e: YamlEvent| e@)
}

} // verus!
