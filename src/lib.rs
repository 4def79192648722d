//! Pointwise word-boundary prediction over character, character-type and
//! dictionary features, with merged single-pass weight tables.
pub mod arith;
pub mod dispatch;
pub mod equivalence;
pub mod index;
pub mod laws;
pub mod merge;
pub mod model;
pub mod predictor;
pub mod scorer;
pub mod sentence;
pub mod text;
pub mod vocab;
