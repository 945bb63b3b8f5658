pub mod exporter;
pub mod grouping;
pub mod model;
