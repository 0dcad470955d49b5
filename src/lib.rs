//! An annotation engine for tokenized text: typed attributes attached to
//! inclusive token ranges, kept in four mutually consistent indexes.

mod attr;
mod laws;
mod ll_line;
mod token;
mod type_id_to_many;

pub use attr::{type_of, AttrType, AttrValue};
pub use laws::{
    lemma_auto_annotation_queryable, lemma_consistency, lemma_index_entries_contains,
    lemma_index_entries_distinct, lemma_insert_idempotent, lemma_ranges_of_contains,
    lemma_ranges_of_distinct,
    lemma_values_of_contains, queryable, single_char_queryable,
};
pub use ll_line::{
    auto_attrs, ends_holding, finds_from, finds_upto, entries_at, index_entries, is_token_span,
    kept_matches, span_text, text_attrs, token_attrs, assignment_attrs, all_on_line,
    first_off_line, valid_range, values_of, AttrEq, InvalidAssignment, LLCursorAssignment,
    LLLine, LLLineFind, LLSelection, Resolver, XMatch,
};
pub use token::{token_text, LLToken, LRange, LToken, PositionRange, TextTag};
pub use type_id_to_many::{ranges_of, TypeIdToMany};
