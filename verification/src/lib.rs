//! Lexicographically ordered position strings ("ranks") for keeping items of
//! a list in order without renumbering: creating a position before, after or
//! between existing ones, rebalancing a whole sequence, and a validated rank
//! value type.

pub mod alphabet;
pub mod api;
pub mod operations;
pub mod order;
pub mod rank;
pub mod rebalance;
mod strutil;

pub use rank::LexoRank;

pub use operations::generate_after;
pub use operations::generate_before;
pub use operations::generate_between;
pub use rebalance::fraction_to_position;
pub use rebalance::generate_balanced_positions;

pub use alphabet::char_to_index;
pub use alphabet::index_to_char;
pub use alphabet::is_valid_base62;
pub use alphabet::BASE;
pub use alphabet::END_CHAR;
pub use alphabet::MID_CHAR;
pub use alphabet::START_CHAR;
