//! Extraction of the primary readable content from an HTML document: the
//! article title, a sanitized fragment of the main content, and its plain
//! text, given the raw markup and the document's source URL.

pub mod bindings;
pub mod dom;
pub mod error;
pub mod extractor;
pub mod scorer;
pub mod text;
