pub mod analytics;
pub mod sorting;
