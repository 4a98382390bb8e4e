//! Decoder for a self-describing, tabular binary save-game format.
//!
//! The format stores its own schema (field names, primitive kinds,
//! cardinalities, arbitrary nesting) as a recursive header in front of one or
//! more tables of records.  The schema is parsed once, then drives the
//! decoding of every record; dense tables are positionally indexed, sparse
//! tables carry an explicit index next to each record.  Decoded records form
//! a typed value tree that can be handed to any structured-output serializer.

use vstd::prelude::*;

mod emit;
mod reader;
mod record;
mod schema;
mod table;
mod value;

pub use emit::{emit_content, emit_data, emit_item, OutputValue, OutputV};
pub use reader::ByteReader;
pub use record::parse_record;
pub use schema::{read_table_header, DataType, Field, FieldV, VarType};
pub use table::{read_sparse_table, read_table};
pub use value::{
    ContentV, ParsedField, ParsedFieldContent, ParsedFieldData, ParsedFieldDataV, ParsedFieldV,
    TableItem,
};

verus! {

/// Why a decode failed.  Every failure is fatal for the operation that hit
/// it: the format keeps schema and data in lockstep, so continuing after a
/// misread would silently corrupt every later field.
#[derive(Clone, Copy, Debug, PartialEq, Eq, Structural)]
pub enum DecodeError {
    /// The input ended in the middle of a read.
    UnexpectedEndOfStream,
    /// A schema tag byte carried a primitive-kind nibble outside the
    /// enumeration (12 through 15).
    InvalidPrimitiveKind,
    /// A StringId or String value was reached during value decoding or
    /// output emission; those kinds have no implemented value path yet.
    UnimplementedPrimitiveKind,
    /// A FileEnd kind appeared as a runtime value; by construction of the
    /// schema this is unreachable from decoded input.
    InternalInvariantViolation,
}

} // verus!
