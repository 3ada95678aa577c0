pub mod transport;
