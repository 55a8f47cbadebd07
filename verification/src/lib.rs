//! A small HTTP client library: plain request/response records and a
//! verified `multipart/form-data` body encoder.

pub mod multipart;
pub mod types;

pub use multipart::MultipartBuilder;
pub use types::headers;
pub use types::Method;
pub use types::PartialResponse;
pub use types::Request;
pub use types::Response;
