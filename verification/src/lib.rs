//! A parser for MIME mail messages held in a byte buffer: header
//! tokenization with folding, RFC 2047 encoded-word decoding, content-type
//! parsing, transfer-encoding and charset body decoding, and recursive
//! multipart splitting.

pub mod codec;
pub mod content_type;
pub mod decode;
pub mod error;
pub mod header;
pub mod headers;
pub mod mail;
pub mod text;

pub use content_type::{ParsedContentType, parse_content_type};
pub use error::MailParseError;
pub use header::{MailHeader, parse_header};
pub use headers::{MailHeaderMap, parse_headers};
pub use mail::{ParsedMail, find_from_u8, parse_mail};
