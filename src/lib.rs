//! A single-instrument limit order book with price-time priority matching.

mod book;
mod id_source;
mod ladder;
mod types;

pub use book::{
    cancel_outcome, fifo_consumed, lemma_cancel_twice, qty_of, queue_has, status_for, HalfBook, OrderBook,
};
pub use ladder::{
    crosses, depth_at, greedy_fills, greedy_left, has_live, is_best_live, not_crossed,
    ladder_add, strictly_ascending,
};
pub use types::{filled_sum, opposite, qty_sum, FillResult, Order, OrderStatus, Side};
