pub mod counting;
pub mod indexing;
pub mod markup;
pub mod order;
pub mod preprocessing;
pub mod stats;
pub mod tokenization;
pub mod writer;
