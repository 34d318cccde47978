//! Resolution of the patches that bring an installed game up to date.
pub mod patch;
pub mod version;
