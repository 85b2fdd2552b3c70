//! What the store of usage records decides: which statements it sends, which
//! rows it writes and what it answers.
pub mod aggregation;
pub mod batch;
pub mod batch_run;
pub mod buckets;
pub mod create;
pub mod deactivate;
pub mod dedup;
pub mod isolation;
pub mod json_rows;
pub mod list;
pub mod page;
pub mod paging;
pub mod partition;
