pub mod isotp;
