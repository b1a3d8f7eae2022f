pub mod ndarray;
pub mod constraints;
