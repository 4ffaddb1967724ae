//! A bit-by-bit media duplicator's core: stride classification, segment
//! layouts, rolling checksums, command-line parsing and report rendering.
//!
//! - `checksum`: the rolling Adler-32 checksum.
//! - `layout`: stride status, segments, layouts and truncation.
//! - `traverse`: end-of-media detection and the traversal state machine.
//! - `text`: decimal, hexadecimal and byte-count rendering.
//! - `cli`: command-line errors, sizes, locations and argument parsing.
//! - `report`: help, banner, CSV layout and closing report.
#![allow(unused_imports)]

pub mod checksum;
pub mod cli;
pub mod layout;
pub mod report;
pub mod text;
pub mod traverse;
