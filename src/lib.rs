//! A longest-prefix-match table of IPv4 routes: address ranges map to destination
//! addresses, and a lookup picks the route with the longest prefix that leads the
//! queried address.

pub mod address;
pub mod table;

pub use address::{Address, AddressParseError};
pub use table::Table;
