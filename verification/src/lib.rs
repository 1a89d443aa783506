//! Install-forensics engine for a curated APT package manager.
//!
//! The library reconstructs, for a named package, the circumstances of its
//! installation: it parses a package-manager transaction log into install
//! events, derives co-occurrence sets (transaction siblings and same-day
//! neighbours), recovers a working directory from audit/journal text, and
//! finds temporally nearby shell-history commands.  All parsing and
//! correlation logic is verified; reading the log, journal and history
//! sources is left to the calling program.

pub mod text;
pub mod pkgset;
pub mod history;
pub mod analyze;
pub mod shell;
pub mod journal;
pub mod report;
