//! A wildcard-based permission matching engine.
//!
//! An [`authz::Permission`] is a domain/actions/targets triple parsed from a
//! wildcard permission string such as `"domain1:action1,action2:target1"`.
//! The implication engine decides whether one permission authorizes another;
//! the authorization query tests one required permission against a
//! collection of assigned permissions; the serialization adapter carries
//! permission collections across a structured text encoding and back.

pub mod authz;
pub mod codec;
pub mod parse;
