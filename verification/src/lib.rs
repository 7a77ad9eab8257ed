//! Data preparation, pipeline planning and blend bookkeeping for the Netflix Prize.

mod lcg;
pub mod archive;
pub mod args;
pub mod blend_args;
pub mod caches;
pub mod decimals;
pub mod download;
pub mod expected;
pub mod folds;
pub mod freq;
pub mod fs_args;
pub mod fwls;
pub mod gram;
pub mod groups;
pub mod ingest;
pub mod jobs;
pub mod lines;
pub mod models;
pub mod newsplit;
pub mod npy;
pub mod numpy_rng;
pub mod order;
pub mod pool;
pub mod preds;
pub mod records;
pub mod reference;
pub mod registry;
pub mod ridge_args;
pub mod runner;
pub mod selection;
pub mod specs;
pub mod store;
pub mod text;
pub mod tool_args;
pub mod usertables;
