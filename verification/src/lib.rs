//! A declarative layout system: windows are described in a small markup
//! language, parsed into a syntax tree, type-checked attribute by attribute and
//! assembled into a fully styled document tree.

pub mod ascii;
pub mod color;
pub mod color_palette;
pub mod layout_abstract_syntax;
pub mod layout_attribute_parser;
pub mod layout_abstract_types;
pub mod resource_cache;
pub mod source_provider;
pub mod window_dom;
pub mod layout_system;
pub mod layout_written_form;
