//! IPv4 subnet overlap checking.
//!
//! A subnet is a base address plus a mask derived from a CIDR prefix length.
//! The crate enumerates every address a subnet covers and reports, for each
//! pair of declared subnets, whether the two blocks share an address.

pub mod address;
pub mod detect;
pub mod mask;
pub mod subnet;

pub use address::Address;
pub use detect::{detect_collisions, PairReport};
pub use mask::{generate_mask, is_valid_mask, number_ones, MaskError};
pub use subnet::Subnet;
