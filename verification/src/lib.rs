//! Detection of Intel-only executables on a Mac: Mach-O header decoding,
//! classification of binaries, and the text/CSV reports built from a scan.

pub mod macho;
pub mod text;
pub mod scan;
pub mod report;
pub mod locale;
