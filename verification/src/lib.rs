//! A minimal key-value store server library.
//!
//! The library holds everything that can be stated and proved: the wire
//! protocol parser, the in-memory store with overwrite semantics, the
//! snapshot codec used for persistence, and the response renderer.  The
//! surrounding process (sockets, files, the listener loop) lives outside
//! and hands this library plain strings.

pub mod error;
pub mod parser;
pub mod response;
pub mod snapshot;
pub mod store;
pub mod text;

pub use error::ParseError;
pub use error::ServerError;
pub use parser::Request;
pub use parser::parse_get;
pub use parser::parse_request;
pub use parser::parse_set;
pub use response::Response;
pub use response::render_response;
pub use store::Storage;
pub use store::handle_request;
pub use text::str_eq;
