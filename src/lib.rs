pub mod accrual;
pub mod advisor;
pub mod utils;
