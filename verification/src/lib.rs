//! Bulk editing of scattered text lines through one virtual buffer, and the
//! conflict-aware merge of the edited buffer back into the files.
//!
//! A session registers the files that hold the lines to edit ([`registry`]),
//! each under a short alias ([`alias`]), paths held against each other as
//! [`paths`] says; writes the lines into one buffer
//! ([`buffer`]); reads the buffer back after the user has edited it and finds
//! what the user wants of each line ([`scan`], [`parser`]); and merges these
//! intents into the files as they are on disk by then, refusing a file in
//! which someone else has changed one of the lines in between
//! ([`reconcile`]). What is told to the user is laid out in [`report`];
//! [`discovery`] reads what the suppliers of match locations hand over, and
//! [`command`] puts the command lines of the editor and the search together. The
//! properties that hold of the parts together are proved in [`laws`].
//!
//! The library computes on texts only. Reading and writing files, starting the
//! editor and printing are the caller's business.

pub mod alias;
pub mod buffer;
pub mod command;
pub mod discovery;
pub mod laws;
pub mod order;
pub mod parser;
pub mod paths;
pub mod reconcile;
pub mod registry;
pub mod report;
pub mod scan;
pub mod text;

pub use alias::{alias_iter, AliasIter, FileAlias, ALIAS_COUNT};
pub use buffer::render;
pub use parser::{parse, EditIntent, EditPlan, FileEdits, Outcome};
pub use reconcile::{reconcile_file, ConflictLine, Reconciliation, ReconciliationOutcome, Summary};
pub use registry::{assign_aliases, build_match_lines, FileRecord, FileRegistry, LineRequest, LoadedFile, MatchLine, Timestamp};
pub use report::{conflict_report, summary_lines, ConflictReport, Segment};
