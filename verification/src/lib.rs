//! ITU-T G.711 µ-law and A-law companding, with the per-sample and
//! per-slice conversions proved against the Recommendation's formulas.

pub mod tables;
pub mod laws;
pub mod pcm;
pub mod mulaw;
pub mod alaw;
pub mod tandem;
pub mod pipeline;
