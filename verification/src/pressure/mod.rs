//! The model: fourteen dimensions in, one glyph and a ranked worklist out.
pub mod assess;
pub mod band;
pub mod compared;
pub mod config;
pub mod deltas;
pub mod disk;
pub mod episode;
pub mod evaluate;
pub mod findings;
pub mod headroom;
pub mod incidents;
pub mod level;
pub mod lineup;
pub mod lookback;
pub mod named;
pub mod readings;
pub mod recorded;
pub mod series;
pub mod summary;
pub mod verdict;
pub mod who;
pub mod wording;

pub use self::assess::{assess, Assessment};
pub use self::evaluate::evaluate;
pub use self::verdict::{Action, DimensionReading, Finding, Pressure, RECOVERING_GLYPH};
