//! A queue whose entries expire a fixed time after they were pushed.
//!
//! Two backends share one contract: [`DequeTtlQueue`] keeps its entries in a
//! double-ended queue, [`TtlQueue`] in two stacks. Time is counted in whole
//! nanoseconds; every operation that reads the clock has a variant ending in
//! `_at` that takes the reading as an argument instead.
use vstd::prelude::*;

pub mod clock;
pub mod model;
pub mod deque;
pub mod double_stack;
pub mod laws;

pub use deque::DequeTtlQueue;
pub use double_stack::{DoubleStackIterator, TtlQueue};
pub use model::{Op, Reply};
