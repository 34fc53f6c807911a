//! Records of the token service.

use vstd::prelude::*;

verus! {

#[derive(Debug)]
pub struct Logo {
    pub content_type: String,
    pub content_base64: String,
}

#[derive(Debug)]
pub enum SwapFeeRate {
    H1,
    H2,
    T3,
    M100,
    M500,
}

#[derive(Debug)]
pub struct StatusRequest {
    pub memory_size: bool,
    pub cycles: bool,
    pub heap_memory_size: bool,
}

#[derive(Debug)]
pub enum MetricsGranularity {
    Hourly,
    Daily,
}

#[allow(non_snake_case)]
#[derive(Debug)]
pub struct GetLogMessagesFilter {
    pub analyzeCount: u32,
    pub messageRegex: Option<String>,
    pub messageContains: Option<String>,
}

#[allow(non_snake_case)]
#[derive(Debug)]
pub struct GetLogMessagesParameters {
    pub count: u32,
    pub filter: Option<GetLogMessagesFilter>,
    pub fromTimeNanos: Option<u64>,
}

#[allow(non_snake_case)]
#[derive(Debug)]
pub struct GetLatestLogMessagesParameters {
    pub upToTimeNanos: Option<u64>,
    pub count: u32,
    pub filter: Option<GetLogMessagesFilter>,
}

#[derive(Debug)]
pub enum CanisterLogRequest {
    GetMessagesInfo,
    GetMessages(GetLogMessagesParameters),
    GetLatestMessages(GetLatestLogMessagesParameters),
}

#[derive(Debug)]
pub struct StatusResponse {
    pub memory_size: Option<u64>,
    pub cycles: Option<u64>,
    pub heap_memory_size: Option<u64>,
}

#[derive(Debug)]
pub struct NumericEntity {
    pub avg: u64,
    pub max: u64,
    pub min: u64,
    pub first: u64,
    pub last: u64,
}

#[derive(Debug)]
pub enum CanisterLogFeature {
    FilterMessageByContains,
    FilterMessageByRegex,
}

#[allow(non_snake_case)]
#[derive(Debug)]
pub struct CanisterLogMessagesInfo {
    pub features: Vec<Option<CanisterLogFeature>>,
    pub lastTimeNanos: Option<u64>,
    pub count: u32,
    pub firstTimeNanos: Option<u64>,
}

#[allow(non_snake_case)]
#[derive(Debug)]
pub struct LogMessageData {
    pub timeNanos: u64,
    pub message: String,
}

#[allow(non_snake_case)]
#[derive(Debug)]
pub struct CanisterLogMessages {
    pub data: Vec<LogMessageData>,
    pub lastAnalyzedMessageTimeNanos: Option<u64>,
}

#[derive(Debug)]
pub enum CanisterLogResponse {
    MessagesInfo(CanisterLogMessagesInfo),
    Messages(CanisterLogMessages),
}

#[derive(Debug)]
pub enum SwapType {
    RuneToBtc,
    BtcToRune,
}

#[derive(Debug)]
pub enum LinearType {
    Days360Times12,
    Days270Times9,
    Days180Times6,
    Days90Times3,
}

#[derive(Debug)]
pub enum FixedType {
    Days30,
    Days90,
    Days180,
    Days360,
    Days720,
}

#[derive(Debug)]
pub enum LockType {
    Linear(LinearType),
    Fixed(FixedType),
}

#[derive(Debug)]
pub struct SupportedStandard {
    pub url: String,
    pub name: String,
}

#[derive(Debug)]
pub struct ConsentMessageMetadata {
    pub utc_offset_minutes: Option<i16>,
    pub language: String,
}

#[derive(Debug)]
pub enum DisplayMessageType {
    GenericDisplay,
    LineDisplay { characters_per_line: u16, lines_per_page: u16 },
}

#[derive(Debug)]
pub struct ConsentMessageSpec {
    pub metadata: ConsentMessageMetadata,
    pub device_spec: Option<DisplayMessageType>,
}

#[derive(Debug)]
pub struct LineDisplayPage {
    pub lines: Vec<String>,
}

#[derive(Debug)]
pub enum ConsentMessage {
    LineDisplayMessage { pages: Vec<LineDisplayPage> },
    GenericDisplayMessage(String),
}

#[derive(Debug)]
pub struct ConsentInfo {
    pub metadata: ConsentMessageMetadata,
    pub consent_message: ConsentMessage,
}

#[derive(Debug)]
pub struct ErrorInfo {
    pub description: String,
}

#[derive(Debug)]
pub struct Icrc28TrustedOrigins {
    pub trusted_origins: Vec<String>,
}

#[derive(Debug)]
pub enum Sort {
    CreateTimeDsc,
    MarketCapDsc,
}

#[derive(Debug)]
pub struct QueryMemeTokenArgs {
    pub sort: Option<Sort>,
    pub start: u64,
    pub length: u64,
}

#[derive(Debug)]
pub enum MemeTType {
    Brc2,
    Icrc,
    Rune,
    Brc20,
}

#[derive(Debug)]
pub struct UpdateMemeTokenInfoArg {
    pub id: u64,
    pub twitter: Option<String>,
    pub website: Option<String>,
    pub telegram: Option<String>,
}

} // verus!
