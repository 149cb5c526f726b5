//! A reverse search engine: registered queries are indexed ahead of time and
//! each incoming document is matched against all of them at once.

pub mod analysis;
pub mod list;
pub mod monitor;
pub mod presearcher;
pub mod query;
pub mod query_decomposer;
pub mod schema;
pub mod scorer;
pub mod stores;
