//! A streaming FASTQ record parser and cleaner.
//!
//! The parser turns a byte stream (held in memory) into a sequence of
//! records, handling multi-line wrapping, embedded whitespace and
//! truncated input.  The cleaner performs quality-based masking,
//! end-trimming, a pass/fail quality verdict and canonical
//! re-serialization on a parsed record.

pub mod bytes;
pub mod record;
pub mod fastq;

pub use fastq::ParseError;
pub use fastq::Reader;
pub use record::Record;
pub use record::Thresholds;
