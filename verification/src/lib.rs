//! Inspects dynamically linked ELF images: decodes their headers, sections,
//! dynamic dependency lists and dynamic symbol tables, walks the transitive
//! dependency closure over a search path, and maps each imported symbol to
//! the dependency image that provides it.

pub mod bytes;
pub mod dependencies;
pub mod depmap;
pub mod link_graph;
pub mod options;
pub mod resolve_symbols;
pub mod search_path;
pub mod summarize;
pub mod ui_state;
pub mod text;
