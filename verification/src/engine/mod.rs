pub mod graphics;
pub mod input;
pub mod storage;
