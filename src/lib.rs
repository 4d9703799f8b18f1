//! Bandwidth accounting: classify captured IPv4 frames as local transmit or
//! receive, attribute their bytes to an endpoint and its egress interface,
//! and turn each one-second window of counters into bit rates.

pub mod addr;
pub mod subnet;
pub mod resolver;
pub mod stats;
pub mod capture;
pub mod publish;
