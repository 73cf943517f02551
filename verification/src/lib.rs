//! The pure core of a node-graph editor: preview budgeting, the zoom
//! level-of-detail ladder, the live-session status ladders, the document's
//! connection rules, the anchored-error index, comment text handling, the
//! layered auto-layout and the execution-trace record the canvas draws from.
//!
//! Everything here works on plain values; drawing, input and floating-point
//! geometry stay with the host.

pub mod budget;
pub mod layout;
pub mod lod;
pub mod status;
pub mod doc;
pub mod errors;
pub mod exec_viz;
pub mod text;
pub mod rule;
pub mod vars;
pub mod commands;
