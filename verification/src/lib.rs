//! A verified engine for a plain-text, line-oriented task list.
//!
//! Each task lives on one line of a shared file that is both machine-written
//! and human-edited.  The library keeps that file in a single canonical shape:
//! a strict parser recognises exactly the canonical line form, a lenient
//! parser recovers fields from damaged lines, a serializer prints the one
//! canonical line of a record, and a reconciler rewrites a whole file into
//! canonical form.  A debouncer decides when a file-change notification is
//! worth a reconciliation pass.


pub mod scan;
pub mod task_parser;
pub mod worker;
pub mod record;
pub mod task_id;
