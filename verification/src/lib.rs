//! A governed dataset store: producers submit structured records into named
//! datasets; consumers run aggregate analytics queries against them under
//! per-dimension access control and privacy suppression.

use vstd::prelude::*;

pub mod activity;
pub mod analytics;
pub mod auth;
pub mod seqs;
pub mod store;
pub mod text;
pub mod types;

verus! {

/// The well-known anonymous caller: a caller presenting this identity and no
/// analytics token is rejected.
pub const ANONYMOUS_IDENTITY: u64 = 0;

/// Errors surfaced by the authorization and analytics path.
#[derive(PartialEq, Eq, Structural, Clone, Copy, Debug)]
pub enum AnalyticsError {
    /// No credential and no token were supplied.
    AnonymousUnauthorized,
    /// The supplied token is not registered.
    TokenNotFound,
    /// A requested attribute or metric dimension is outside the caller's allowed set.
    AttributeAccessDenied,
    /// The access oracle returned zero grants (or failed): fail closed.
    NoEntitlement,
}

} // verus!
