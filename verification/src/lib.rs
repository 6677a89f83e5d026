//! Colour lookup, substitute ranking and stash parsing for DMC embroidery floss.

pub mod code;
pub mod color;
pub mod flosskeeper;
pub mod matching;
pub mod order;
pub mod search;
pub mod settings;
pub mod stash;
pub mod stash_search;
pub mod text;
pub mod laws;
pub mod code_laws;
pub mod stash_laws;
pub mod search_laws;
pub mod import_laws;
