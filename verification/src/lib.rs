//! Assembly of structural parse events into a queryable document tree.
//!
//! An external event source performs the lexical analysis of serialized
//! structured text and hands this library a linear stream of typed events
//! (stream/document boundaries, scalars, container starts and ends, anchors,
//! aliases). The library assembles those events into a forest of typed nodes
//! plus an anchor table, and exposes read-only navigation and on-demand alias
//! resolution over the finished document.

pub mod builder;
pub mod element;
pub mod events;
pub mod laws;
pub mod model;
pub mod views;

pub use builder::YamlDocument;
pub use element::YamlElement;
pub use element::YamlMap;
pub use element::YamlSet;
pub use events::YamlEvent;
