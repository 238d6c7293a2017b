//! The annotated hex dump: sixteen bytes to a line, each line with its address, the
//! bytes in hexadecimal and a gutter of printable characters.

pub mod layout;
pub mod encoder;
pub mod decoder;
pub mod laws;

pub use encoder::encode_byte;
pub use encoder::encode;
pub use encoder::Encoder;
pub use decoder::decode;
pub use decoder::Decoder;
