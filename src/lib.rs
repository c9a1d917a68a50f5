//! Symbolic expressions as shared, copy-on-write trees, with a binary encoder.
use vstd::prelude::*;

mod association;
mod decode;
mod expr;
mod number;
pub mod owned;
mod symbol;
mod text;
mod wxf;

pub use self::association::{
    association_term, has_key, insertion_order_is_kept, keys_unique, record_keys, record_rule,
    record_rules, reinsert_keeps_order, upsert, Association, Record,
};
pub use self::decode::{
    is_prefix_at, stream_determines_term, term_wf, terms_wf, DecodeError,
};
pub use self::expr::{tag_laws, tag_of, terms, Expr, ExprKind, Normal, Term};
pub use self::number::{is_nan_bits, Number, F64};
pub use self::symbol::{system_prefix, Symbol};
pub use self::text::{
    association_text, column_offset_append, debug_quoted, digit_char, digits, indent_amount,
    indented_join, int_text, last_line_len, lines_of, pieces, real_text_fn, real_text_of,
    record_text, records_text, spaces, strip_cr, text_of, texts,
};
pub use self::wxf::{
    compressed_header, encoding_is_deterministic, frame_compressed, le_bytes, plain_header,
    varint, wxf_stream, wxf_term, wxf_terms, wxf_text, zlib_best, zlib_ok,
};

verus! {

} // verus!
