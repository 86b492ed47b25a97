pub mod lsm;
