//! Verified core of a batch-job monitor: parsers for the two scheduler text
//! formats, the numeric derivations they share, and the reconciliation store
//! that turns parsed records into durable job state.

pub mod batch;
pub mod cycles;
pub mod dates;
pub mod fields;
pub mod records;
pub mod remote;
pub mod report;
pub mod store;
pub mod text;
pub mod units;
