//! The result-iteration core of a document database: it gathers the outcomes of
//! the candidate records of a query, then splits, groups, orders, pages and
//! fetches them. Beside it: the storage keys of field definitions, and the
//! decisions of the import endpoint.
use vstd::prelude::*;

pub mod collate;
pub mod fd;
pub mod import;
pub mod iterator;
pub mod laws;
pub mod value;
