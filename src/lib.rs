//! A software USB 1.1 low-speed device engine: line coding, framing, CRCs,
//! packet dispatch and the control-transfer state machine.
pub mod bits;
pub mod crc;
pub mod demo;
pub mod descriptors;
pub mod line;
pub mod rx;
pub mod tx;
pub mod usb;
