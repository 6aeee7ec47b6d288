//! Relative placement ranking: a majority rule over the ordinal placements
//! that judges give to competitors, with a cascade of tie-breaks.

pub mod cluster;
pub mod laws;
pub mod load;
pub mod model;
pub mod plain;
pub mod sheet;
pub mod tally;
pub mod text;

pub use load::LoadError;
pub use cluster::{Competitor, CompetitorCluster, CompetitorID, Judge, JudgeID};
pub use sheet::Sheet;
