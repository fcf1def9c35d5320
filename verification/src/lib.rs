//! Ranking window functions (`row_number`, `rank`, `dense_rank`) over rows
//! that arrive in partition/order sequence, and the group-limit selection
//! that keeps only the rows whose rank is within a limit.

pub mod arrays;
pub mod rows;
pub mod scan;
pub mod rank_processor;
pub mod row_number_processor;
pub mod group_limit_processor;
pub mod laws;
