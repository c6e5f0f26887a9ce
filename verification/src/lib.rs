//! A codec for a Redis-style serialization protocol (RESP): a closed set of
//! frame variants, a deterministic byte encoder, and a resumable decoder that
//! parses frames out of a byte buffer that may hold only part of a frame.

pub mod decode;
pub mod encode;
pub mod frame;
pub mod laws;
pub mod num;

pub use encode::RespEncode;
pub use frame::BulkString;
pub use frame::Double;
pub use frame::RespArray;
pub use frame::RespError;
pub use frame::RespFrame;
pub use frame::RespMap;
pub use frame::RespNull;
pub use frame::RespNullArray;
pub use frame::RespNullBulkString;
pub use frame::RespSet;
pub use frame::SimpleError;
pub use frame::SimpleString;
