//! A formatter for Org-mode documents.
pub mod text;
pub mod width;
pub mod case;
pub mod classify;
pub mod wrap;
pub mod list;
pub mod format;
pub mod engine;
pub mod document;
pub mod laws;
pub mod rules;

pub use classify::{
    get_heading_level, is_heading_line, is_heading_or_drawer_end, is_list_item,
    is_regular_paragraph_line, is_regular_paragraph_line_with,
};
pub use document::{format_lines, format_org, LineCases};
pub use format::FormatOptions;
pub use list::{format_list_line, split_list_line, wrap_list_line};
pub use width::{char_width, str_width};
pub use wrap::wrap_paragraph;
