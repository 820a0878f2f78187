//! Parsing and structural comparison of CAN network databases.
//!
//! A database text is parsed into [`Dbc`] ([`parser`]), two databases are
//! compared field by field into an ordered list of difference records
//! ([`diff`]), free-text labels are compared by a fuzzy equivalence
//! ([`similarity`]), and the records can be rendered as comma-separated
//! text ([`csv`]).
pub mod csv;
pub mod diff;
pub mod laws;
pub mod model;
pub mod order;
pub mod parser;
pub mod scan;
pub mod similarity;
pub mod text;

pub use csv::{compare_dbc_to_csv, comparison_to_csv, escape_csv_field};
pub use diff::{
    compare_dbc_files, compare_message_properties_for_results, compare_signal_properties_for_results,
    compare_signals_for_results, compare_value_descriptions, format_receivers, ComparisonResult, ResultType,
};
pub use model::{ByteOrder, Dbc, Decimal, Error, MessageID, Messages, MultiplexerType, Signal, ValueType};
pub use similarity::{calculate_similarity, descriptions_match, is_equivalent, meets_threshold, normalize};
pub use text::{decimal_string, decimal_to_string, hex_string};
