//! A single-pass, zero-copy, lazy Multi-FASTA parser.
//!
//! Parsing does one pass over an in-memory byte buffer and splits it into
//! records, each holding a borrowed description span and a borrowed raw
//! sequence span. Sequence characters are never interpreted, validated or
//! copied during parsing: a record offers a lazy view that filters embedded
//! line feeds on the fly, and a compaction routine that materialises a
//! newline-free copy with a single allocation.
//!
//! The parser expects input data that is compatible with ASCII; multibyte
//! code points pass through as opaque single bytes. Unix-style line feeds
//! are the only line breaks recognised: a carriage return is preserved as
//! ordinary sequence content, as is a legacy `;` comment line. A `>` byte
//! anywhere outside a description line starts a new record, whether or not
//! it stands at the beginning of a line.

pub mod laws;
pub mod model;
pub mod parser;
pub mod records;
pub mod search;

pub use parser::{parse_fasta, parse_fasta_str};
pub use records::{Fasta, FastaSequence, ParseError, SequenceIter};
