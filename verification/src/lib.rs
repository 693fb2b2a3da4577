//! Conversion of PCL printer output into RTF documents.
//!
//! `pcl` parses the printer's byte stream into commands, `rtf` lays the
//! commands out as pages and paragraphs and writes the RTF text, `font` holds
//! the character sets that printed bytes are read in, and `text` the numerals.
pub mod font;
pub mod pcl;
pub mod rtf;
pub mod text;

pub use font::{Font, Glyphs};
pub use pcl::{parse_pcl, PclCommand, PclParser, PclParserError, Position};
pub use rtf::{convert_pcl, pcl_to_rtf, PclToRtfError, Rtf};
