//! Subtitle translation pipeline.
//!
//! A subtitle document is read from the block grammar of subtitle files,
//! cut into chunks under a budget of tokens, sent chunk by chunk to a
//! translation service, and put together again, so that the translated
//! document has the captions of the source in the same order and with the
//! same timing.
//!
//! - [`text`]: character sequences, the model of every string here.
//! - [`model`]: what a record and a document are.
//! - [`grammar`]: the block grammar, and that writing and reading agree.
//! - [`chunking`]: chunk plans, and that a plan loses nothing.
//! - [`framing`]: how the texts of a chunk travel to the service and back.
//! - [`orchestration`]: the model of a translation job, and that neither
//!   the order of completion nor a late success changes its outcome.
//! - [`srt_parser`]: records and documents as stored, with their
//!   operations.
//! - [`translator`]: the settings of a translation and the job itself.
//! - [`service`]: reading the answer of the translation service.
//! - [`error`]: the errors of all of these.

pub mod chunking;
pub mod error;
pub mod framing;
pub mod grammar;
pub mod model;
pub mod orchestration;
pub mod service;
pub mod srt_parser;
pub mod text;
pub mod translator;
