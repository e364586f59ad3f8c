//! Incremental update packages for a static content tree: content manifests,
//! manifest diffs, text rewriting for the two deployment variants, archive
//! layout and the rolling window of prior revisions.
pub mod text;
pub mod rewrite;
pub mod diff;
pub mod manifest;
pub mod package;
pub mod release;
