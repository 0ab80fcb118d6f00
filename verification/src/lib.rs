//! The streaming read path of a log query engine: client-side aggregation of
//! metric queries, the accounting that bounds it, the frequency sketch behind
//! `approx_topk`, field detection, and the residual-pushdown rules of the
//! query compiler.
#![allow(unused_imports)]

pub mod account_laws;
pub mod accum;
pub mod agg;
pub mod arrival;
pub mod bags;
pub mod budget_laws;
pub mod cells;
pub mod charge;
pub mod client_agg;
pub mod cms;
pub mod compile;
pub mod compile_laws;
pub mod detected;
pub mod detected_probe;
pub mod detection_laws;
pub mod error;
pub mod fan_out;
pub mod field_answer;
pub mod folding;
pub mod grid_laws;
pub mod index_map;
pub mod instant;
pub mod instant_ledger;
pub mod ledger;
pub mod literal;
pub mod model;
pub mod number;
pub mod order;
pub mod order_laws;
pub mod origin;
pub mod paging;
pub mod presence;
pub mod probe;
pub mod range;
pub mod range_model;
pub mod reducer_laws;
pub mod reduction;
pub mod sketch_laws;
pub mod slide;
pub mod stream_laws;
pub mod text;
pub mod window;
