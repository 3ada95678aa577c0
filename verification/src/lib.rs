//! Serial-line CAN ("SLCAN") framing: the text form of CAN frames that
//! serial CAN adapters exchange, the codecs that cut those lines out of a
//! byte stream, and the payload helper of the ISO-TP transport layer.

pub mod canframe;
pub mod buffer;
pub mod slcan;
pub mod line;
pub mod protocols;
