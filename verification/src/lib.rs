//! Protostone instructions for Bitcoin transactions: the binary codec that
//! embeds token transfers in an `OP_RETURN` output, and the rules by which a
//! multi-asset transfer is sized, funded and assembled.

pub mod assembler;
pub mod asset_id;
pub mod calldata;
pub mod chunks;
pub mod decode;
pub mod did;
pub mod edicts;
pub mod encode;
pub mod gas;
pub mod logs;
pub mod protostone;
pub mod psbt_text;
pub mod prototag;
pub mod roundtrip;
pub mod script;
pub mod selection;
pub mod transaction;
pub mod varint;
pub mod withdraw;
