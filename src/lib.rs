//! Reading and writing ISON, a line-oriented tabular text format, and its
//! one-record-per-line variant ISONL.

pub mod text;
pub mod tokenizer;
pub mod model;
pub mod classify;
pub mod parser;
pub mod serializer;
pub mod isonl;
pub mod validation;
pub mod laws;
pub mod roundtrip;

pub use model::{Block, Document, FieldInfo, ISONError, Reference, Row, Value};
pub use parser::parse;
pub use serializer::dumps;
pub use validation::{
    boolean, float, integer, not_empty, one_of, reference, string, table, BoolFieldBuilder, FieldError,
    FieldSchema, FieldType, FloatFieldBuilder, ISONReference, IntConstraints, IntFieldBuilder, NotEmptyValidator,
    OneOfValidator, RefFieldBuilder, StringConstraints, StringFieldBuilder, TableSchema,
    ValidatedRow, ValidatedTable, ValidatedValue, ValidationError, Validator,
};
pub use isonl::{dumps_isonl, ison_to_isonl, isonl_to_ison, loads, loads_isonl, parse_isonl};
