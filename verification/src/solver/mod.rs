pub mod traits;
pub mod constraints;
