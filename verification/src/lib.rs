//! A verified codec for JSON compilation databases.
//!
//! A compilation database lists, for every source file of a build, the exact
//! compiler invocation that compiles it: the working directory, the source
//! file, the command line, and optionally the produced output file.  The
//! database is stored as a JSON array of objects; the command line of an
//! object is written either as a pre-tokenized `arguments` array or as a
//! single shell-escaped `command` string.
//!
//! The crate converts between that file format and a canonical in-memory
//! [`Entry`] model.  The conversion is proved correct: encoding a valid
//! database and decoding the produced text yields the original entries, and
//! the shell-word joiner is proved to be a right inverse of the splitter.

mod shell;
mod text;
mod json;
mod model;
mod codec;

pub use shell::{split, join, MismatchedQuotes, lemma_split_join};
pub use json::{Json, from_text, to_text, lemma_parse_print};
pub use model::{Entry, Entries, Format, Error, Fault, EntryFault, SyntaxFault};
pub use codec::{load, save, load_from_reader, save_into_writer, validate, DEFAULT_FILE_NAME};
pub use codec::{lemma_round_trip, lemma_shape_agreement, lemma_output_dropped,
    lemma_absent_output_decodes_none, lemma_missing_field};
