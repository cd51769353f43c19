//! Rewrites one named profile of a line-oriented network configuration from
//! the key/value dump that a DHCP lease tool prints for an interface.
//!
//! `dump` turns the tool's output into the recognised lease attributes;
//! `profile` replaces a profile's block in the configuration document.
pub mod attrs;
pub mod dump;
pub mod profile;
pub mod text;
