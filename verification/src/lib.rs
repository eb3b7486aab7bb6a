//! Credential-pool relay: route classification, a rate-limit ledger, the
//! credential selector that reads it, and the request/response relay steps.
pub mod bytes;
pub mod route;
pub mod ledger;
pub mod selector;
pub mod headers;
pub mod relay;
