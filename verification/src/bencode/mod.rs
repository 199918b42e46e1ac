//! Bencode, the encoding of `.torrent` files and tracker responses.

pub mod decode;
pub mod keys;
pub mod object;


pub use object::{Dictionary, Node, Object, ObjectType, Value};
