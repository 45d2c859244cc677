//! Recovery of panels and bars from finite elements.
pub mod bars;
pub mod outline;
pub mod panels;
pub mod pipeline;
