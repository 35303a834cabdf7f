//! Conversion between Jingle session documents and SDP session descriptions.
//!
//! [`SessionDescription::try_from_jingle`] writes a Jingle session as a
//! session description, [`SessionDescription::try_to_jingle`] reads one back,
//! and [`SessionDescription::add_sources_from_jingle`] adds the sources of
//! newly joined participants to a description that is in use. What holds of
//! them as a whole is stated in [`laws`] and [`roundtrip`].

pub mod artifact;
pub mod decode;
pub mod description;
pub mod encode;
pub mod error;
pub mod grouping;
pub mod identity;
pub mod jingle;
pub mod laws;
pub mod names;
pub mod roundtrip;
pub mod text;
pub mod update;
pub mod views;
pub mod xml;

pub use crate::description::SessionDescription;
pub use crate::error::Error;
pub use crate::jingle::{Action, Jingle};
