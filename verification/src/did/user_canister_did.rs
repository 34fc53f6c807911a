//! Records of the deposit and wallet service.

use vstd::prelude::*;

verus! {

#[derive(Debug)]
pub enum BitcoinNetwork {
    Mainnet,
    Regtest,
    Testnet,
}

#[derive(Debug)]
pub struct StatusRequest {
    pub memory_size: bool,
    pub cycles: bool,
    pub heap_memory_size: bool,
}

#[derive(Debug)]
pub struct StatusResponse {
    pub memory_size: Option<u64>,
    pub cycles: Option<u64>,
    pub heap_memory_size: Option<u64>,
}

#[derive(Debug)]
pub struct LogoParams {
    pub content_type: String,
    pub content_base64: String,
}

#[derive(Debug)]
pub struct RuneId {
    pub tx: u32,
    pub block: u64,
}

#[derive(Debug)]
pub enum TokenType {
    Rune(RuneId),
    Bitcoin,
}

#[derive(Debug)]
pub struct WalletReceiveResult {
    pub accepted: u64,
}

#[derive(Debug)]
pub enum SubmittedTxidType {
    Bitcoin { txid: String },
}

} // verus!
