//! Gadgets for order relations and range arithmetic inside an arithmetic
//! circuit: range checks by bit decomposition, slack-based `min`/`max`,
//! comparison predicates, saturating subtraction and one-hot encoding,
//! all expressed as rank-1 polynomial constraints over a prime field.

pub mod bit_utils;
pub mod cmp;
pub mod common;
pub mod cs;
pub mod modular;
pub mod one_hot_encoding;
pub mod ops;
pub mod range_check;
pub mod saturating;

pub use bit_utils::cast_to_boolean;
pub use bit_utils::cast_to_u64;
pub use bit_utils::from_bits;
pub use bit_utils::to_bits;
pub use cmp::enforce_ge;
pub use cmp::enforce_le;
pub use cmp::ge;
pub use cmp::le;
pub use common::enforce_zero;
pub use common::get_slack;
pub use modular::is_prime;
pub use one_hot_encoding::one_hot_encode;
pub use ops::max;
pub use ops::min;
pub use range_check::enforce_in_binary_bound;
pub use range_check::enforce_in_bound;
pub use range_check::enforce_in_set;
pub use saturating::saturating_sub;
