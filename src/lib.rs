//! A small HTTP/1.1 server core: an incremental request parser, a route
//! matcher with single-segment wildcards, and buffered and chunked response
//! writers that produce the exact bytes to send on a connection.

mod chunked;
mod code;
mod digest;
mod error;
mod header;
mod line;
mod method;
mod parser;
mod path;
mod request;
mod response;
mod routes;
mod stream;
mod text;

pub use code::{ServerResponse, StatusCode};
pub use error::Error;
pub use header::{Headers, ProtoHeader};
pub use line::RequestLine;
pub use method::HttpMethod;
pub use parser::RequestParser;
pub use path::{Path, PathError};
pub use request::{Request, RequestReader};
pub use response::{ChunkedResponseWriter, Response, ResponseLine, ResponseWriter, ResponseWriterError};
pub use routes::{Endpoints, RouteError};
pub use text::{find_crlf, parse_usize};
