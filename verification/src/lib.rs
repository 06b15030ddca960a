//! Classification of announced IP prefixes by origin AS and shared upstream AS.

pub mod asn;
pub mod cache;
pub mod classifier;
pub mod dual;
pub mod failure;
pub mod fallback;
pub mod net;
pub mod order;
pub mod path;
pub mod points;
pub mod prefixes;
pub mod ranges;
pub mod subnets;
pub mod table;
pub mod text;
