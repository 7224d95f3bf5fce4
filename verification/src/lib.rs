//! Full-text index compaction: choosing a document order, and merging sorted term dictionaries.
#![allow(unused_imports)]

// Choosing a document order.
pub mod arith;
pub mod bisection;
pub mod bisection_laws;
pub mod degrees;
pub mod forward_index;
pub mod order_cost;
pub mod order_laws;
pub mod reorder;
pub mod window_laws;

// Merging sorted dictionaries.
pub mod batch;
pub mod batch_laws;
pub mod column_laws;
pub mod counts;
pub mod dictionary;
pub mod errors;
pub mod input_order;
pub mod kept_laws;
pub mod merge_job;
pub mod merge_laws;
pub mod part_laws;
pub mod posting_laws;
pub mod sorted_merge;
pub mod term_heap;
pub mod term_laws;
pub mod term_merge;
pub mod term_order;
pub mod term_walk;
pub mod term_work;
pub mod whole_merge;

// What std and rayon supply.
pub mod parallel;
