//! Allocation tracking: interception bookkeeping, reconciliation of raw
//! allocation and deallocation logs, and aggregation into a call-site tree.
pub mod category;
pub mod intercept;
pub mod laws;
pub mod reconcile;
pub mod stats;
pub mod symbol;
pub mod text;
pub mod tree;

pub use category::{determine_category, guess_category, Category};
pub use intercept::{count_in_capacity, slot_in_capacity, AllocationLog, FrameWrapper, RalloAllocator};
pub use reconcile::{reconcile, CapturedAllocation, DeallocationLog, ReconcileError};
pub use stats::{Allocation, FileContent, FrameInfo, Key, MissingField, Stats};
pub use symbol::{demangle_name, next_symbol_address, strip_rust_hash_suffix, usize_to_i64, SymbolKey};
pub use tree::{Tree, TreeError, TreeNode};
