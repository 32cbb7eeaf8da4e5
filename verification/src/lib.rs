//! A command line PDF editor's library: content-stream operations for text,
//! lines and colours, the undo rule, grid overlays, and the object
//! renumbering used when a document is patched or merged.

pub mod content;
pub mod writer;
pub mod command;
pub mod drawer;
pub mod painter;
pub mod apply;
pub mod undo;
pub mod grids;

pub mod object;
pub mod document;
pub mod map;
pub mod traverse;
pub mod bridge;
pub mod constants;
pub mod analyze;
pub mod modify;
pub mod merger;
pub mod display;
pub mod patch;
pub mod transform;
