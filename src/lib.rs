//! A paginated table scan against a remote key-value store, driven by a
//! continuation that the store invokes once per page. The library decides
//! what each invocation does (`scan`) and renders each row as text (`row`,
//! `decimal`); talking to the store and blocking until the scan is drained
//! is left to the caller.

pub mod decimal;
pub mod row;
pub mod scan;
