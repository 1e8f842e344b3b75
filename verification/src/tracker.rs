//! UDP tracker protocol (connect and announce phases): fixed-layout wire
//! types with big-endian encoding, the client's decisions (validation,
//! retry timing, state transitions), and small parsing utilities.

pub mod flow;
pub mod types;
pub mod utils;
