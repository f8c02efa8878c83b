//! Table-driven shanten engine: distance-to-completion of a mahjong hand,
//! computed by merging precomputed per-group lookup entries.
pub mod metrics;
pub mod shanten;
pub mod tables;

pub use metrics::{
    eval_discards, eval_hand, honitsu_distance_for_suit, tanyao_distance, DiscardMetrics,
    HandMetrics,
};
pub use shanten::{calc_all, calc_chitoi, calc_kokushi, calc_normal};
pub use tables::{ensure_init, Tables, TableError, JIHAI_TABLE_SIZE, SUHAI_TABLE_SIZE};
