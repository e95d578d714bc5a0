//! A source-style enforcement library: it classifies file content against a
//! fixed set of line-oriented style rules (tabs, trailing whitespace,
//! disallowed characters, overlong lines, Windows line endings), produces
//! corrected content through idempotent text transformations, matches paths
//! against ignore patterns and file-ending selectors, and aggregates per-file
//! findings into a final verdict.

pub mod check;
pub mod config;
pub mod clean;
pub mod report;
pub mod search;
pub mod text;
