//! A parser for ProGuard mapping files.
//!
//! A mapping file records, per compilation unit, the correspondence between
//! original and obfuscated names for classes, fields, and methods, optionally
//! including line-number ranges used to de-obfuscate stack traces.

use vstd::prelude::*;

mod encoding;
mod grammar;
mod identity;
mod laws;
mod lookup;
mod record;
mod stream;
mod text;

pub use encoding::utf8_valid_from;
pub use grammar::{classify_line, classify_spec};
pub use record::{MappingRecord, MethodModel, RecordModel};
pub use identity::document_uuid_of;
pub use laws::{
    lemma_candidates_filter, lemma_class_line_classifies, lemma_class_line_needs_colon,
    lemma_field_line_discards_range, lemma_find_class_idempotent, lemma_get_methods_idempotent,
    lemma_inlined_method_classifies,
    lemma_member_line_needs_arrow, lemma_member_third_token_not_arrow,
    lemma_method_prefix_gates_mapping, lemma_method_suffix_discarded,
    lemma_query_hits_one_range,
    lemma_query_outside_ranges, lemma_rank_keeps_order_of_ties,
};
pub use lookup::{
    spec_args, spec_find_class, spec_find_field, spec_get_methods, Args, Class, ClassModel,
    FieldInfo, FieldModel, MappingView, MethodInfo,
};
pub use lookup::{
    class_alias_of, class_original_of, expand_commas, field_text, insert_ranked, is_class_line,
    line_at, line_end_from, method_line_with_range, method_text, next_line_start, rank_methods,
    spec_find_class_at, spec_first_line, spec_line_key, spec_matches_line,
    spec_method_candidates, spec_next_class_at, spec_span_end, split_commas,
    stream_has_line_info, views_of,
};
pub use stream::{
    lemma_round_trip, spec_next_line, spec_split_line, spec_stream, well_formed, MappingRecordIter,
    ProguardMapping,
};
pub use text::{
    all_digits, ascii_chars, digits_val, find_from, find_last, find_term_from, is_ascii_bytes,
    is_digit, is_space, is_term, lossy_text_of, parse_num, trim_spec,
};

verus! {

/// A single line-number correspondence attached to a method record.
///
/// Maps start/end lines of a minified file to original start/end lines.
#[derive(Debug, PartialEq, Eq, Clone, Copy)]
pub struct LineMapping {
    /// Start line on the obfuscated side (0 = unknown).
    pub startline: usize,
    /// End line on the obfuscated side (0 = unknown).
    pub endline: usize,
    /// The original start line, when the line carried a trailing range.
    pub original_startline: Option<usize>,
    /// The original end line, when the line carried a trailing range.
    pub original_endline: Option<usize>,
}

impl Default for LineMapping {
    /// The all-unknown mapping: both ranges absent.
    fn default() -> (r: Self)
        ensures
            r.startline == 0,
            r.endline == 0,
            r.original_startline is None,
            r.original_endline is None,
    {
        LineMapping {
            startline: 0,
            endline: 0,
            original_startline: None,
            original_endline: None,
        }
    }
}

} // verus!
