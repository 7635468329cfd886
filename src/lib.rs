//! A metrics relay: scraped exposition lines are normalized into one canonical
//! line format, spooled on disk, routed to sinks and pushed in batches.
//!
//! - `transcompiler`, `labels`: the canonical line and its label list.
//! - `scraper`: from a fetched document to the contents of source spool files.
//! - `router`: from a source spool file to the sink spool files.
//! - `sink`, `sender`: keeping a sink's spool bounded, and pushing it.
//! - `spool`: spool listings, the seen set and the queue of a sink.
//! - `conf`: the configuration and its rules.
//! - `matcher`, `clock`, `text`, `error`: what the others share.
pub mod clock;
pub mod conf;
pub mod error;
pub mod labels;
pub mod matcher;
pub mod router;
pub mod scraper;
pub mod sender;
pub mod sink;
pub mod spool;
pub mod text;
pub mod transcompiler;
