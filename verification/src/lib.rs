//! Parts of a text editor, verified with Verus: two completion providers
//! (buffer words ranked by proximity, and dynamic abbreviation) and the
//! renderer that turns a declarative widget tree into text-property
//! entries, click-routing hit areas and per-widget state.

pub mod buffer_words;
pub mod dabbrev;
pub mod provider;
pub mod rank;
pub mod render;
pub mod text;
pub mod widgets;
pub mod words;
