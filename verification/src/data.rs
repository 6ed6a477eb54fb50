pub mod matcher;
pub mod pathtree;
