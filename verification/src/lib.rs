//! Verified client-side wire formats for the YPIR private information
//! retrieval client: the length-prefixed query encoding, the response
//! framing, and the plaintext layout of decoded responses.

pub mod layout;
pub mod le_bytes;
pub mod query;
pub mod query_laws;
pub mod response;
