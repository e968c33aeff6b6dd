//! Ingestion, normalisation, deduplication and search of mutual-fund
//! performance records exported from spreadsheets.
pub mod text;
pub mod name;
pub mod cell;
pub mod layout;
pub mod records;
pub mod dedup;
pub mod ingest;
pub mod reconcile;
pub mod index;
pub mod join;
