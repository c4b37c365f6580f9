//! Index logic of the layered standard-atmosphere model: where an altitude
//! falls in the table of layer boundaries, which layer serves it, which
//! layer first holds a constant temperature, and how a column of per-altitude
//! results is gathered into profiles.
//!
//! Altitudes and other reals reach this crate as [`level::Level`] values,
//! which carry the order of the reals and nothing else.

pub mod level;
pub mod search;
pub mod grid;
pub mod profile;
