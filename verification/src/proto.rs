//! The archived messages, as far as the viewer reads them.
//!
//! An archive holds protobuf messages of peer-observer's schema; `messages` reads
//! them into these types. They keep the schema's names, and leave
//! out what nothing here looks at: an arm that only its presence matters for
//! carries nothing.

use vstd::prelude::*;

verus! {

/// The top-level archived message.
#[derive(Debug, PartialEq, Eq)]
pub struct Event {
    /// Milliseconds since the epoch.
    pub timestamp: u64,
    pub peer_observer_event: Option<PeerObserverEvent>,
}

/// The first record of every archive file.
#[derive(Debug, Clone, Copy, PartialEq, Eq)]
pub struct ArchiveHeader {
    /// Seconds since the epoch.
    pub created: u64,
    /// Unset in archives written before the field existed.
    pub low_data: Option<bool>,
}

/// Which extractor an event came from.
#[derive(Debug, PartialEq, Eq)]
pub enum PeerObserverEvent {
    EbpfExtractor(Ebpf),
    RpcExtractor(Rpc),
    P2pExtractor(P2p),
    LogExtractor(Log),
    IpcExtractor(Ipc),
}

#[derive(Debug, PartialEq, Eq)]
pub struct Ebpf {
    pub ebpf_event: Option<EbpfEvent>,
}

#[derive(Debug, PartialEq, Eq)]
pub enum EbpfEvent {
    Message(MessageEvent),
    Connection(ConnectionEvent),
    Mempool(MempoolEvent),
    Validation(ValidationEvent),
}

/// A P2P message.
#[derive(Debug, PartialEq, Eq)]
pub struct MessageEvent {
    pub meta: Metadata,
    pub msg: Option<Msg>,
}

/// What is known of a P2P message whatever it carries.
#[derive(Debug, PartialEq, Eq)]
pub struct Metadata {
    pub peer_id: u64,
    pub addr: String,
    /// A [`ConnType`], as a number.
    pub conn_type: i32,
    pub command: String,
    pub inbound: bool,
    pub size: u64,
}

/// How a connection came about. Its numbers are dense from zero.
#[derive(Debug, Clone, Copy, PartialEq, Eq)]
pub enum ConnType {
    Unknown,
    Inbound,
    OutboundFullRelay,
    BlockRelayOnly,
    Feeler,
}

/// What a P2P message carried.
#[derive(Debug, PartialEq, Eq)]
pub enum Msg {
    Version(Version),
    Verack(bool),
    Ping(Ping),
    Inv(Inv),
    Getdata(GetData),
    Notfound(NotFound),
    Tx(Tx),
    Block(Block),
    Headers(Headers),
    Compactblock(CompactBlock),
    Getblocktxn(GetBlockTxn),
    Blocktxn(BlockTxn),
    Addr(Addr),
    Addrv2(AddrV2),
    Unknown(Unknown),
    /// Any other message the schema names.
    Other,
}

#[derive(Debug, PartialEq, Eq)]
pub struct Version {
    pub user_agent: String,
}

#[derive(Debug, PartialEq, Eq)]
pub struct Ping {
    pub value: u64,
}

#[derive(Debug, PartialEq, Eq)]
pub struct Inv {
    pub items: Vec<InventoryItem>,
}

#[derive(Debug, PartialEq, Eq)]
pub struct GetData {
    pub items: Vec<InventoryItem>,
}

#[derive(Debug, PartialEq, Eq)]
pub struct NotFound {
    pub items: Vec<InventoryItem>,
}

#[derive(Debug, PartialEq, Eq)]
pub struct InventoryItem {
    pub item: Option<Item>,
}

#[derive(Debug, PartialEq, Eq)]
pub enum Item {
    Transaction(Vec<u8>),
    Block(Vec<u8>),
    Wtx(Vec<u8>),
    WitnessTransaction(Vec<u8>),
    WitnessBlock(Vec<u8>),
    CompactBlock(Vec<u8>),
    Unknown(UnknownItem),
    /// The extractor could not read the item.
    Error(bool),
}

#[derive(Debug, PartialEq, Eq)]
pub struct UnknownItem {
    pub inv_type: u32,
    pub hash: Vec<u8>,
}

#[derive(Debug, PartialEq, Eq)]
pub struct Transaction {
    pub txid: Vec<u8>,
    pub wtxid: Vec<u8>,
    pub raw: Option<Vec<u8>>,
}

#[derive(Debug, PartialEq, Eq)]
pub struct Tx {
    pub tx: Transaction,
}

#[derive(Debug, PartialEq, Eq)]
pub struct BlockHeader {
    pub version: i32,
    pub prev_blockhash: Vec<u8>,
    pub merkle_root: Vec<u8>,
    pub time: u32,
    pub bits: u32,
    pub nonce: u32,
    pub hash: Vec<u8>,
}

#[derive(Debug, PartialEq, Eq)]
pub struct Block {
    pub header: BlockHeader,
    pub transactions: Vec<Transaction>,
}

#[derive(Debug, PartialEq, Eq)]
pub struct BlockTxn {
    pub block_hash: Vec<u8>,
    pub transactions: Vec<Transaction>,
}

#[derive(Debug, PartialEq, Eq)]
pub struct PrefilledTransaction {
    pub diff_index: u32,
    pub tx: Transaction,
}

#[derive(Debug, PartialEq, Eq)]
pub struct CompactBlock {
    pub header: BlockHeader,
    pub nonce: u64,
    pub short_ids: Vec<Vec<u8>>,
    pub transactions: Vec<PrefilledTransaction>,
}

#[derive(Debug, PartialEq, Eq)]
pub struct GetBlockTxn {
    pub block_hash: Vec<u8>,
    pub tx_indexes: Vec<u32>,
}

#[derive(Debug, PartialEq, Eq)]
pub struct Headers {
    pub headers: Vec<BlockHeader>,
}

/// A gossiped address. They are only ever counted.
#[derive(Debug, Clone, Copy, PartialEq, Eq)]
pub struct Address;

#[derive(Debug, PartialEq, Eq)]
pub struct Addr {
    pub addresses: Vec<Address>,
}

#[derive(Debug, PartialEq, Eq)]
pub struct AddrV2 {
    pub addresses: Vec<Address>,
}

/// A message whose command the extractor does not know.
#[derive(Debug, PartialEq, Eq)]
pub struct Unknown {
    pub command: String,
    pub payload: Vec<u8>,
}

/// A connection being opened, closed, evicted or complained about.
#[derive(Debug, PartialEq, Eq)]
pub struct ConnectionEvent {
    pub event: Option<ConnEvent>,
}

#[derive(Debug, PartialEq, Eq)]
pub struct Connection {
    pub peer_id: u64,
    pub addr: String,
    /// A [`ConnType`], as a number.
    pub conn_type: i32,
    /// Bitcoin Core's `Network` enum.
    pub network: u32,
}

#[derive(Debug, PartialEq, Eq)]
pub struct ClosedConnection {
    pub conn: Connection,
    /// Seconds since the epoch.
    pub time_established: u64,
}

#[derive(Debug, PartialEq, Eq)]
pub struct InboundConnection {
    pub conn: Connection,
    pub existing_connections: u64,
}

#[derive(Debug, PartialEq, Eq)]
pub struct OutboundConnection {
    pub conn: Connection,
    pub existing_connections: u64,
}

#[derive(Debug, PartialEq, Eq)]
pub struct MisbehavingConnection {
    pub id: u64,
    pub message: String,
}

#[derive(Debug, PartialEq, Eq)]
pub enum ConnEvent {
    Closed(ClosedConnection),
    InboundEvicted(ClosedConnection),
    Inbound(InboundConnection),
    Outbound(OutboundConnection),
    Misbehaving(MisbehavingConnection),
}

#[derive(Debug, Clone, Copy, PartialEq, Eq)]
pub struct MempoolEvent {
    pub event: Option<MempoolChange>,
}

#[derive(Debug, Clone, Copy, PartialEq, Eq)]
pub enum MempoolChange {
    Added,
    Replaced,
    Removed,
    Rejected,
}

#[derive(Debug, Clone, Copy, PartialEq, Eq)]
pub struct ValidationEvent {
    pub event: Option<Validated>,
}

#[derive(Debug, Clone, Copy, PartialEq, Eq)]
pub enum Validated {
    BlockConnected,
}

#[derive(Debug, PartialEq, Eq)]
pub struct Rpc {
    pub rpc_event: Option<RpcEvent>,
}

/// The answer to an RPC poll.
#[derive(Debug, PartialEq, Eq)]
pub enum RpcEvent {
    PeerInfos(PeerInfos),
    MempoolInfo,
    Uptime,
    NetTotals,
    MemoryInfo,
    AddrmanInfo,
    ChainTxStats,
    NetworkInfo,
    BlockchainInfo,
    OrphanTxs,
    Addrman,
    EstimateSmartFee,
}

/// A `getpeerinfo` snapshot.
#[derive(Debug, PartialEq, Eq)]
pub struct PeerInfos {
    pub infos: Vec<PeerInfo>,
}

#[derive(Debug, PartialEq, Eq)]
pub struct PeerInfo {
    pub id: u32,
    pub subversion: String,
}

#[derive(Debug, Clone, Copy, PartialEq, Eq)]
pub struct P2p {
    pub p2p_event: Option<P2pEvent>,
}

#[derive(Debug, Clone, Copy, PartialEq, Eq)]
pub enum P2pEvent {
    PingDuration,
    AddressAnnouncement,
    InventoryAnnouncement,
    FeefilterAnnouncement,
}

#[derive(Debug, Clone, Copy, PartialEq, Eq)]
pub struct Log {
    pub log_event: Option<LogEvent>,
}

#[derive(Debug, Clone, Copy, PartialEq, Eq)]
pub enum LogEvent {
    UnknownLogMessage,
    BlockConnectedLog,
    BlockCheckedLog,
    SawNewHeaderLog,
    CompactBlockReconstructedLog,
}

#[derive(Debug, Clone, Copy, PartialEq, Eq)]
pub struct Ipc {
    pub ipc_event: Option<IpcEvent>,
}

#[derive(Debug, Clone, Copy, PartialEq, Eq)]
pub enum IpcEvent {
    BlockTip,
}

} // verus!
