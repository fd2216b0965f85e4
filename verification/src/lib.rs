//! Single-attribute rule induction: a frequency counter, a discretizer for
//! numeric attributes, and the generation, evaluation and selection of rules.

pub mod accuracy;
pub mod dataset;
pub mod iter;
pub mod oner;
pub mod order;
pub mod print;
pub mod quant;
pub mod quantize;
pub mod trial;
