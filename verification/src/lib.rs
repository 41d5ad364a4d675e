//! rent: a plaintext presentation tool. One paragraph of the slide file is
//! one slide; text slides are scaled to fit, image slides are scaled to the
//! usable area, and the whole deck can be exported as a rasterized PDF.
//!
//! This crate holds the verified core: the slide-file grammar, the farbfeld
//! decoder and image scaling, pixel compositing, the PDF document layout,
//! the key and mouse bindings and the presentation state.
pub mod config;
pub mod slide;
pub mod draw;
pub mod img;
pub mod pdf;
pub mod deck;
