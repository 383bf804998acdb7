//! The verified core of a self-hosted static site platform: subdomain
//! rules, upload name sanitising, session cookies, the site registry with
//! its search ranking, and the request routing decisions.
use vstd::prelude::*;

pub mod api;
pub mod auth;
pub mod outside;
pub mod platform;
pub mod rank;
pub mod sanitize;
pub mod serve_site;
pub mod store;
pub mod text;

verus! {

} // verus!
