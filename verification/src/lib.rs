//! A pipeline that prepares mixed-script text for a translation engine which
//! understands a single script and a single legacy byte encoding.
//!
//! The engine itself is not part of this crate. The crate holds what surrounds
//! it: the substitution dictionaries applied before and after the engine, the
//! segmenter that splits text into translatable and pass-through runs, the
//! transcoding between Unicode text and the engine's byte encodings, the cache
//! of finished translations, and the context that decides, step by step, what
//! has to be asked of the engine.

pub mod cache;
pub mod codec;
pub mod context;
pub mod dict;
pub mod error;
pub mod order;
pub mod progress;
pub mod segment;
pub mod text;
pub mod utf8;
