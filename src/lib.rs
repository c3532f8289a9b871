//! Record-level processing of mol2 pose files: a pull parser that cuts a
//! decompressed byte stream into molecule records, query tables of accepted
//! ids, the matching rules, and the per-file and per-record steps of the
//! filter, partition and tabulate operations.
pub mod codec;
pub mod decimal;
pub mod mol2;
pub mod mol2utils;
pub mod query;
pub mod text;
