//! Text segmentation and mark lifecycle engine for on-page word and passage
//! annotation: a synthetic DOM arena, reversible highlight marks with a dwell
//! timer, promotion into identified triggers, and the per-page controller.

pub mod chars;
pub mod segment;
pub mod attrs;
pub mod dom;
pub mod ident;
pub mod scan;
pub mod wrap;
pub mod word;
pub mod annotation;
pub mod trigger;
pub mod context;
pub mod mark;
pub mod controller;
pub mod text_mark;
pub mod render;
