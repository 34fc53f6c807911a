//! Records of the fee-rate and transaction-orchestration service.

use vstd::prelude::*;

verus! {

#[derive(Debug)]
pub enum TxOutputType {
    P2Wpkh,
    OpReturn(u64),
    P2Sh,
    P2Tr,
}

#[derive(Debug)]
pub struct EstimateMinTxFeeArgs {
    pub input_types: Vec<TxOutputType>,
    pub pool_address: String,
    pub output_types: Vec<TxOutputType>,
}

#[derive(Debug)]
pub enum CodeDeploymentMode {
    Reinstall,
    Upgrade,
    Install,
}

#[derive(Debug)]
pub struct ExchangePool {
    pub exchange_id: String,
    pub pool_address: String,
    pub pool_key: String,
}

#[derive(Debug)]
pub enum GetFailedInvokeLogArgs {
    All,
    ByTxid(String),
    ByAddress(String),
}

#[derive(Debug)]
pub struct MempoolTxFeeRateView {
    pub low: u64,
    pub high: u64,
    pub update_time: String,
    pub medium: u64,
}

#[derive(Debug)]
pub struct BlockBasic {
    pub block_hash: String,
    pub block_height: u32,
}

#[derive(Debug)]
pub struct ReceivedBlockView {
    pub processing_results: Vec<String>,
    pub block_basic: BlockBasic,
    pub txids: Vec<String>,
    pub block_time: String,
    pub received_time: String,
}

#[derive(Debug)]
pub enum ExchangeStatus {
    Active,
    Halted { txid: String },
}

#[derive(Debug)]
pub struct RejectedTxView {
    pub rollback_results: Vec<String>,
    pub txid: String,
    pub received_time: String,
    pub reason: String,
}

#[derive(Debug)]
pub enum BitcoinNetwork {
    Mainnet,
    Regtest,
    Testnet,
}

#[derive(Debug)]
pub enum TxStatus {
    Confirmed(u32),
    Rejected(String),
    Pending,
}

#[derive(Debug)]
pub struct NewBlockDetectedArgs {
    pub block_hash: String,
    pub block_timestamp: u64,
    pub tx_ids: Vec<String>,
    pub block_height: u32,
}

#[derive(Debug)]
pub struct SaveIncludedBlockForTxArgs {
    pub txid: String,
    pub timestamp: u64,
    pub block: BlockBasic,
}

#[derive(Debug)]
pub struct SetTxFeePerVbyteArgs {
    pub low: u64,
    pub high: u64,
    pub medium: u64,
}

} // verus!
