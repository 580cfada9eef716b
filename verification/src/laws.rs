//! What the parts promise, in plain arithmetic over their inputs and results.

pub mod frames;
pub mod gaps;
pub mod playout;
pub mod protection;
pub mod rates;
pub mod reports;
pub mod retransmission;
pub mod sending;
pub mod sessions;
pub mod upkeep;
pub mod wire;
