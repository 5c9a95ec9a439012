//! Reading the contents of executables packed by Enigma Virtual Box and
//! restoring the original PE image.

pub mod bytes;
pub mod outside;
pub mod evb;
pub mod pe;
pub mod vfs;
