//! The read-only ERP catalog service's logic: search-text normalisation,
//! query expansion, fuzzy scoring and ranking of catalog items, the SQL it
//! runs, and the shaping of rows, errors and configuration.
pub mod appconfig;
pub mod httpapi;
pub mod scoring;
pub mod search;
pub mod store;
pub mod text;
