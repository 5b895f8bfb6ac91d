//! Extraction of paper records from a subject-sorted N-Triples dump of the
//! Microsoft Academic Graph, and their join against a journal side table.
//!
//! - `text`: decimal numbers, prefix and suffix tests, and the subject token
//!   by which lines are grouped.
//! - `grouping`: the streaming entity grouper.
//! - `statement`: decoding of a group's lines into statements.
//! - `paper`: the record builder.
//! - `join`: the side-table index and the join of papers with it.
//! - `catalog`: reading the journals of a journal dump.

pub mod catalog;
pub mod grouping;
pub mod join;
pub mod paper;
pub mod statement;
pub mod text;

pub use grouping::{group_lines, lemma_grouping_count, lemma_grouping_unique, Grouper};
pub use join::{
    format_row, header, join_all, join_row, lemma_join_output_unique, GroupOutcome, JoinStats, Journal, SideTable, PROGRESS_EVERY,
};
pub use paper::{
    build_paper, lemma_bad_number_is_malformed, lemma_omitted_field_is_named,
    lemma_validation_output_unique, validate_all, validate_paper,
    BuildError, Field, Paper,
};
pub use statement::{decode_group, join_lines, Statement, Term};
pub use text::{line_subject, parse_u32, u32_to_text};
