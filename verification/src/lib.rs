//! Packet handling and control logic of a UDP-fed software-defined radio
//! receiver: the raw packet format, the sample-rate table, the packet
//! sequencer that keeps the sample stream gap-free, and the command handling
//! of the down-converter stage.

pub mod sdr;
pub mod payload;
pub mod pipeline;
pub mod cuwf;
