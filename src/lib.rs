//! Decomposition of markdown documents into a hierarchy of content units,
//! versioned publication of that hierarchy into a searchable index, and
//! assembly of contextual search hits.

pub mod kind;
pub mod text;
pub mod units;
pub mod front;
pub mod hierarchy;
pub mod index;
pub mod paths;
pub mod query;
