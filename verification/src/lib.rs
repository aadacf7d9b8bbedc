//! Badges that show the line statistics of a source repository.
//!
//! A request names a repository and a branch. The branch is resolved to a
//! content key, which names one commit; the statistics of that commit are
//! computed once and kept in a bounded cache for a fixed time; and the
//! badge shows a count of the languages that the request chose.
//!
//! Fetching a repository, counting its lines and drawing a badge are left
//! to the caller. Everything here works on plain values and is verified.

pub mod aggregate;
pub mod badge;
pub mod cache;
pub mod flight;
pub mod key;
pub mod magnitude;
pub mod request;
pub mod resolver;
pub mod stats;
pub mod store;
pub mod text;
