pub mod order;
pub mod block;
pub mod active;
pub mod codec;
pub mod storage;
pub mod lexer;
pub mod query;
