//! Approximate nearest-neighbour indexes over proximity graphs, verified.
//!
//! Vector components and distances are binary32 numbers carried as their 32-bit
//! patterns (see [`word`]); the arithmetic on them comes from the caller's
//! [`metric::Distance`].
pub mod alike;
pub mod audit;
pub mod beam;
pub mod bisect;
pub mod bits;
pub mod building;
pub mod bytes;
pub mod candidate;
pub mod codec;
pub mod codes;
pub mod course;
pub mod csr;
pub mod delta;
pub mod diverse;
pub mod error;
pub mod filter;
pub mod filtered;
pub mod formats;
pub mod growing;
pub mod history;
pub mod image;
pub mod incremental;
pub mod index;
pub mod keeping;
pub mod kmeans;
pub mod layouts;
pub mod like;
pub mod meta;
pub mod metric;
pub mod orderly;
pub mod placing;
pub mod postings;
pub mod pq;
pub mod probe;
pub mod prune;
pub mod quantized;
pub mod quantizer;
pub mod queue;
pub mod rabitq;
pub mod random;
pub mod reopen;
pub mod rotation;
pub mod routing;
pub mod select;
pub mod serving;
pub mod simd;
pub mod snapshot;
pub mod spfresh;
pub mod sq;
pub mod storage;
pub mod training;
pub mod upkeep;
pub mod vamana;
pub mod wire;
pub mod word;
