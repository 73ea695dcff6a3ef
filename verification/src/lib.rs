//! Renders HTML reports by merging record data into HTML templates whose
//! regions are marked with CSS classes (`title_block`, `data_block`,
//! `sorting_row`, `pattern_row`).
//!
//! The crate is organised leaves-first:
//! - [`text`]: literal byte-string search and replacement, the substrate of
//!   both the locator and the renderer.
//! - [`order`]: lexicographic ordering of byte strings, sorting and
//!   deduplication, association-list merging.
//! - [`locator`]: the tag-block locator, which extracts a tagged and
//!   optionally class-qualified span from a document without a DOM parse.
//! - [`model`]: the data model (headers, part records, global variables).
//! - [`grouping`]: the grouping engine, which builds a sort-value -> part-id
//!   view of the part table.
//! - [`template`]: the five extracted zones of one template document.
//! - [`render`]: the renderer, which replicates row templates over grouped
//!   records and substitutes global variables.
//! - [`cli`]: the command-line grammar over raw argument tokens.

pub mod cli;
pub mod grouping;
pub mod locator;
pub mod model;
pub mod order;
pub mod render;
pub mod template;
pub mod text;
