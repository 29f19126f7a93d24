//! Conversion between the MCF text format and Ableton Live sets.
//!
//! The library holds the format logic: reading MCF text, reading the element
//! tree of an Ableton document, editing the XML text of a Live set template
//! and assembling a Live set from a project.  Reading and writing files is
//! left to the caller.
pub mod text;
pub mod project;
pub mod ableton_out;
pub mod numeral;
pub mod pitch;
pub mod mcf_in;
pub mod gzip;
pub mod xml;
pub mod ableton_in;
