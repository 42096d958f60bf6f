use vstd::prelude::*;

pub mod bucket;
pub mod data_quality;
pub mod depth_lifetime;
pub mod depth_series;
pub mod export;
pub mod export_build;
pub mod export_collect;
pub mod export_laws;
pub mod export_rows;
pub mod grid;
pub mod ledger;
pub mod market;
pub mod metrics;
pub mod obi;
pub mod orderflow;
pub mod preregistration;
pub mod probe;
pub mod report;
pub mod signals;
pub mod sim;
pub mod split;
pub mod strategy_cell;
pub mod types;
