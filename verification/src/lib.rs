//! A shareable, mutable markup tree and the depth-first engine that turns a
//! node of it back into a stream of calls on a markup sink.
//!
//! * [`name`] and [`attributes`]: qualified names, and the ordered attribute
//!   set of an element.
//! * [`tree`]: the nodes, held in a [`tree::Tree`] and named by
//!   [`tree::NodeId`].
//! * [`sink`]: the [`sink::Sink`] capability, and two sinks that log the
//!   calls they are given.
//! * [`serializer`]: the walk itself, [`serializer::emitted`] as its
//!   mathematical statement, and what holds of it.
//! * [`html`]: the sink that writes HTML, through html5ever.

pub mod attributes;
pub mod html;
pub mod name;
pub mod serializer;
pub mod sink;
pub mod tree;
