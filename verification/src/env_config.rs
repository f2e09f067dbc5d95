//! Zero-copy lexer for a small env/Makefile-style config format.
//!
//! ```text
//! # comment
//! HOST = localhost
//! URL = https://${HOST}:8080/api
//! ```
//!
//! One assignment per line, `NAME = VALUE`; whitespace around `=` and at the
//! ends of a line is insignificant; a value mixes literal text with
//! `${OTHER_NAME}` references; lines that start with `#` (after leading
//! whitespace) are comments, and blank lines are ignored.
//!
//! The pipeline: [`tokenize`] splits the source into [`Token`]s that borrow
//! from it; [`build_symbol_table`] groups them by name into a
//! [`SymbolTable`]; [`resolve_all`] substitutes every reference and gives a
//! [`ResolvedTable`] of owned values.

mod lex;
mod resolve;
mod table;

pub use lex::{
    find_char, find_ref, first_at, first_ref_at, is_ws, law_comment_or_blank_line_ignored,
    law_find_char, law_find_ref, law_trim, law_value_without_reference, law_lines_in_order, law_value_with_one_reference, line_tokens,
    opens_ref, prepend, token_views, tokenize, tokenize_spec, trim, trim_end, trim_start,
    value_tokens, Token, TokenView, TokenizeError,
};
pub use resolve::{
    all_outcome_view, law_literal_value, law_resolution_substitutes, law_acyclic_table_resolves, law_error_names_an_undefined_name, law_resolve_all_each_name, ranks_references,
    lemma_resolve_name_stack, lemma_resolve_segments_stack, lemma_unvisited_push, literal_text,
    outcome_view, prefix_outcome, resolve_all, resolve_all_spec, resolve_name, resolve_prefix,
    resolve_segments, resolved_view, str_views, substitute, try_resolve_all, unvisited, within,
    ResolveError, ResolvedTable,
};
pub use table::{
    add_segment, build_symbol_table, define_name, entries_view, entry_view, has_name,
    is_value_piece, law_definition_groups_pieces, law_every_defined_name_has_entry,
    law_other_names_untouched, lemma_table_distinct, lookup_name, name_pos,
    names_distinct, segment_of, segment_views, symbol_table_of, table_state, Segment, SegmentView,
    SymbolTable,
};
