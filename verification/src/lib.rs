//! Verified core of a declarative HTTP benchmarking step.
//!
//! A step is described by a configuration value (name, URL template, method,
//! header templates, optional body template, optional iteration item and
//! assignment key).  Executing a step resolves the templates against a
//! scenario-wide variable context and a table of previously captured
//! responses, yields a concrete request for a transport to send, and then
//! records a report and optionally stores the parsed response body so that
//! later steps can reference it.

pub mod interpolate;
pub mod json;
pub mod request;
pub mod store;
pub mod value;
