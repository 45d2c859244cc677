//! Geometry of recovered panels and bars.
pub mod attachment;
pub mod bar_contacts;
pub mod partition;
pub mod plane_fit;
pub mod topology;
pub mod utils;
