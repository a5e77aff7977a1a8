//! IPv4 subnet arithmetic.
//!
//! An input such as `10.0.0.1/24` or `10-0-0-1-24` names an address and a
//! prefix length. [`parse`] reads it, [`helpers`] derives the masks, the
//! network and the broadcast address, the usable host range and the host
//! counts, and [`cidr_info`] gathers them in one description.
//!
//! Every function states what it returns over sequences of characters and
//! 32-bit values, and the laws that tie the functions together are proved
//! beside them.

pub mod addr;
pub mod cidr_info;
pub mod decimal;
pub mod error;
pub mod helpers;
pub mod ip_class;
pub mod parse;
pub mod text;
