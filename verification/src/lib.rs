//! Building blocks for a small OAuth 1.0a streaming client: request signing,
//! URL normalization, response-status gating, and the copy loop that dumps a
//! response body into a sink, each with a verified contract.

pub mod decimal;
pub mod driver;
pub mod params;
pub mod percent;
pub mod request;
pub mod signer;
pub mod stream;
pub mod url;
