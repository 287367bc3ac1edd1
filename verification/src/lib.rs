//! Parsing, ordering and querying of the `Accept-Encoding` HTTP header
//! field: a comma-separated list of content-coding tokens, each with an
//! optional quality weight, exposed as a priority-ordered preference list.

pub mod accept;
pub mod chars;
pub mod encoding;
pub mod quality;

pub use accept::AcceptEncoding;
pub use encoding::Encoding;
pub use quality::ParseError;
pub use quality::Quality;
pub use quality::QualityValue;
