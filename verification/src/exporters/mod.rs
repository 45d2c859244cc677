//! Writers of recovered models.
pub mod dxf;

pub use crate::exporters::dxf::DxfExporter;
