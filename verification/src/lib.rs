use vstd::prelude::*;

pub mod strings;
pub mod order;
pub mod version;
pub mod manifest;
pub mod addons;
pub mod text;
pub mod symbols;
pub mod index;
pub mod catalog;
pub mod docs;
pub mod lookup;
pub mod source;
pub mod skripthub;
pub mod format;
pub mod diagnostics;
pub mod convert;
pub mod semantic;
pub mod editor;
pub mod matcher;
pub mod pattern;
pub mod parser;
pub mod pattern_index;
pub mod completion;
pub mod settings;
pub mod entries;
pub mod hierarchy;
pub mod extension;
pub mod folding;
pub mod syntax;
pub mod outline;

verus! {

} // verus!
