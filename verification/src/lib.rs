//! Rateless set reconciliation.
//!
//! Two parties, each holding a set of symbols, discover the symmetric
//! difference between their sets by exchanging a stream of coded symbols.
//! The [`encoder::Encoder`] produces the stream lazily and without bound;
//! the [`decoder::Decoder`] consumes it and peels out the differing symbols
//! as soon as enough information has arrived.

pub mod bytes;
pub mod decoder;
pub mod encoder;
pub mod impls;
pub mod index;
pub mod symbol;
pub mod window;

pub use bytes::AsBytes;
pub use bytes::AsVariableBytes;
pub use bytes::Bytes;
pub use decoder::Decoder;
pub use encoder::Encoder;
pub use symbol::CodedSymbol;
pub use symbol::Symbol;
