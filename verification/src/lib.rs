//! Pointing the dependencies of a `package-lock.json` at another registry,
//! and checking that they point at a given one.
//!
//! The library decides and computes; it performs no request. A caller reads
//! the lockfile, fetches what `packages` says is wanted, hands the outcome to
//! `npm` and `integrity`, and lets `rewrite` or `check` do the rest.

pub mod check;
pub mod http;
pub mod integrity;
pub mod lock;
pub mod npm;
pub mod packages;
pub mod rewrite;
pub mod strmap;
pub mod text;
