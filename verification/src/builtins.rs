pub mod cd;
