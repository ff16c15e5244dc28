//! A bounded-concurrency batch translation pipeline, as a verified state machine.
//!
//! Lines are split into numbered chunks; each round of chunks is sent by the caller,
//! whose results may come back in any order. The results are put back in number order;
//! a chunk whose translated line count differs from its own is sent again one line per
//! request, one retry level deeper, until the deepest level, where it is an error.
use vstd::prelude::*;

pub mod bulk;
pub mod chunk;
pub mod pipeline;

pub use bulk::{bulk_from_reply, join_lines, wrap_paragraphs, BulkTranslated};
pub use chunk::{chunk_lines, Chunk};
pub use pipeline::{Pipeline, PipelineError, Round, Segment};

verus! {

/// The deepest retry level: a line count that still differs there is not retried.
pub const MAX_RETRY_DEPTH: u32 = 5;

} // verus!
