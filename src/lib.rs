//! Exports e-reader highlights as a nested Markdown document.
//!
//! Outline records carry identifiers whose trailing `-<digits>` suffix gives
//! their depth; highlights are bound to the outline node whose match key equals
//! their location, and every bound node is rendered with all of its ancestors.

mod text;
pub mod ident;
pub mod toc;
pub mod assign;
pub mod closure;
pub mod render;
pub mod filename;

pub use assign::{Highlight, assign_highlights};
pub use closure::needed_headings;
pub use filename::sanitize_filename;
pub use ident::{extract_depth, strip_suffix};
pub use render::{Book, format_highlight, generate_markdown};
pub use toc::{OutlineEntry, TocEntry, base_file, toc_by_depth, toc_by_file, toc_entry};
