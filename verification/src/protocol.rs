//! Operational status protocol shared by agents and dashboards.
pub mod status;

pub use status::SwalStatusCode;
