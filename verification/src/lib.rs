//! Text extraction for HWP 5.0 and HWPX documents, and the document-viewer
//! rules around it: which files are shown, how plain text is decoded, and
//! how a directory listing is ordered.

pub mod std_text;
pub mod text;
pub mod order;
pub mod hwp;
pub mod hwpx;
pub mod viewer;
