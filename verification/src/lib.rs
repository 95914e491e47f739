//! MOO protocol: message model, wire format parser and encoder, and the
//! decision logic of connections and response streams.
//!
//! The MOO protocol is an HTTP-like bidirectional message protocol: a text
//! header section (`MOO/1 VERB NAME`, `Request-Id`, other headers, and
//! `Content-Type`/`Content-Length` where a body follows), a blank line, and
//! an optional body.

pub mod text;
pub mod table;
pub mod error;
pub mod json;
pub mod buffers;
pub mod message;
pub mod protocol;
pub mod roundtrip;
pub mod response_stream;
pub mod connection;

pub use connection::ConnectionState;
pub use error::{MooError, Result};
pub use message::{MooBody, MooHeaders, MooMessage, MooVerb};
pub use protocol::{MooMessageBuilder, MooParser};
pub use response_stream::ResponseStreamState;
