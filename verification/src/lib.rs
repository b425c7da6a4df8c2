//! Adaptive solver for a "guess the hidden hand" game over complete
//! fourteen-tile winning hands.
//!
//! The library enumerates every winning hand, packs hands into records,
//! colours a guess against a secret, and picks the guess that splits the
//! candidates still possible most evenly.

pub mod generator;
pub mod growing_heap;
pub mod handle;
pub mod hands;
pub mod heap;
pub mod mahd_fast;
pub mod mahd_fast2;
pub mod notation;
pub mod order;
pub mod session;
pub mod seven_pairs;
pub mod standard;
pub mod store;
pub mod universe;
pub mod utils;
