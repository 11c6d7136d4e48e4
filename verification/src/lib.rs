//! Variable-length subnet masking: partitions an IPv4 network into named
//! child subnets, each sized for a minimum number of usable hosts.
//!
//! Requests are sized (`sizing`, `subnet`), put in order (`ordering`), laid
//! out from the parent network's base address (`layout`) and held against
//! the parent's capacity (`allocate`). `requests` reads requests from text.

pub mod allocate;
pub mod error;
pub mod layout;
pub mod network;
pub mod ordering;
pub mod power;
pub mod requests;
pub mod sizing;
pub mod subnet;

pub use allocate::{allocate, AllocationReport};
pub use error::AllocationError;
pub use layout::AllocatedSubnet;
pub use network::ParentNetwork;
pub use ordering::TieBreak;
pub use requests::{parse_requests, RequestError};
pub use subnet::{Subnet, SubnetRequest};
