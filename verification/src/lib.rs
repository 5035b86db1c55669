//! Verified core of the Kōji clustering and routing algorithms: mode
//! parsing, the exact disk-cover branch-and-bound, the greedy disk-cover
//! and max-coverage selections, the coverage bookkeeping behind refinement,
//! union-find connectivity, region growing, route stitching, and the
//! integer tallies of solution statistics. Floating-point geometry stays
//! with the callers, which hand the library the points each candidate
//! covers.

pub mod modes;
pub mod bitset;
pub mod mask_prep;
pub mod exact_cover;
pub mod exact_basic;
pub mod union_find;
pub mod select;
pub mod options;
pub mod jitter;
pub mod grid;
pub mod stats;
pub mod sorting;
pub mod utils;
pub mod cover_dedup;
pub mod cap_cells;
pub mod components;
pub mod tally;
pub mod chunk_greedy;
pub mod cover_state;
pub mod greedy_select;
pub mod regions;
pub mod center_cap;
pub mod comb;
pub mod stitch;
pub mod plugins;
