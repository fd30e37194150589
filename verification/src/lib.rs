pub mod cli;
pub mod etl;
pub mod fighters;
pub mod freq;
pub mod rank;
pub mod rank_exact;
pub mod salad;
pub mod weights;
