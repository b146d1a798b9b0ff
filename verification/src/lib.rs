//! Token-stream engine for source editors: a character cursor, a chunk store
//! with delimiter pairing, a contract-language tokenizer and a token-driven
//! formatter, together with the small helpers of a static file server and the
//! shader type literals.

pub mod compress;
pub mod cursor;
pub mod format;
pub mod http;
pub mod pairing;
pub mod solformat;
pub mod solgrammar;
pub mod soltokenizer;
pub mod text;
pub mod textbuffer;
pub mod token;
pub mod tylit;
