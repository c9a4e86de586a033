//! Replay of transactions of the chain.

use vstd::prelude::*;

use crate::numeral;
use crate::ops;
use crate::ops::{Op, Rec, Record, TraceOp, TypeKind};
use crate::text;

verus! {

/// A client of a Liteserver. It knows its endpoint and does not communicate.
#[derive(Debug, Clone)]
pub struct LiteserverClient {
    /// The address of the Liteserver or of its configuration.
    pub endpoint: String,
}

/// What to replay.
#[derive(Debug, Clone)]
pub struct ReplayConfig {
    /// The hash of the transaction, in hexadecimal.
    pub tx_hash: String,
    /// The address of the contract that executed the transaction.
    pub address: String,
    /// The Liteserver that knows the transaction.
    pub endpoint: String,
    /// The directory of the contract's sources, for source mapping.
    pub source_dir: Option<String>,
}

/// The state of a contract at some time.
#[derive(Debug, Clone)]
pub struct ContractState {
    /// The code cell as a bag of cells.
    pub code: Vec<u8>,
    /// The data cell as a bag of cells.
    pub data: Vec<u8>,
    /// The balance in nanoTON.
    pub balance: u64,
}

/// What is known of a transaction.
#[derive(Debug, Clone)]
pub struct TransactionInfo {
    /// The body of the incoming message as a bag of cells.
    pub in_msg_body: Vec<u8>,
    /// The state of the contract at the time of the transaction.
    pub contract_state: ContractState,
}

/// Why there is no replay.
#[derive(Debug, Clone)]
pub enum ReplayError {
    /// The client does not communicate.
    NoLiteserver { endpoint: String },
    /// The transaction could not be fetched from the endpoint.
    NoTransaction { tx_hash: String, endpoint: String },
    /// The bytes are too few for a bag of cells.
    BocTooShort { len: usize },
    /// The bytes do not begin as a bag of cells does.
    BocMagic { found: Vec<u8> },
}

/// The mathematical model of an error.
#[verifier::ext_equal]
pub enum ReplayFault {
    NoLiteserver { endpoint: Seq<char> },
    NoTransaction { tx_hash: Seq<char>, endpoint: Seq<char> },
    BocTooShort { len: int },
    BocMagic { found: Seq<u8> },
}

impl View for ReplayError {
    type V = ReplayFault;

    open spec fn view(&self) -> ReplayFault {
        match *self {
            ReplayError::NoLiteserver { endpoint } => ReplayFault::NoLiteserver {
                endpoint: endpoint@,
            },
            ReplayError::NoTransaction { tx_hash, endpoint } => ReplayFault::NoTransaction {
                tx_hash: tx_hash@,
                endpoint: endpoint@,
            },
            ReplayError::BocTooShort { len } => ReplayFault::BocTooShort { len: len as int },
            ReplayError::BocMagic { found } => ReplayFault::BocMagic { found: found@ },
        }
    }
}

/// What an error says.
pub open spec fn fault_text(e: ReplayFault) -> Seq<char> {
    match e {
        ReplayFault::NoLiteserver { endpoint } =>
            "Liteserver communication not yet implemented (endpoint: "@ + endpoint + ")"@,
        ReplayFault::NoTransaction { tx_hash, .. } => "failed to replay transaction "@ + tx_hash
            + " -- Liteserver fetch not yet implemented"@,
        ReplayFault::BocTooShort { len } => "BOC data too short ("@ + numeral::int_text(len)
            + " bytes)"@,
        ReplayFault::BocMagic { found } => "invalid BOC magic: expected b5ee9c72, got "@
            + numeral::bytes_hex(found),
    }
}

impl ReplayError {
    /// The message of the error.
    pub fn message(&self) -> (r: String)
        ensures
            r@ == fault_text(self@),
    {
        match self {
            ReplayError::NoLiteserver { endpoint } => text::concat3(
                "Liteserver communication not yet implemented (endpoint: ",
                endpoint.as_str(),
                ")",
            ),
            ReplayError::NoTransaction { tx_hash, .. } => text::concat3(
                "failed to replay transaction ",
                tx_hash.as_str(),
                " -- Liteserver fetch not yet implemented",
            ),
            ReplayError::BocTooShort { len } => text::concat3(
                "BOC data too short (",
                numeral::u64_to_string(*len as u64).as_str(),
                " bytes)",
            ),
            ReplayError::BocMagic { found } => text::concat2(
                "invalid BOC magic: expected b5ee9c72, got ",
                numeral::hex_string(found).as_str(),
            ),
        }
    }
}

impl LiteserverClient {
    /// A client of an endpoint.
    pub fn new(endpoint: &str) -> (r: Self)
        ensures
            r.endpoint@ == endpoint@,
    {
        LiteserverClient { endpoint: endpoint.to_owned() }
    }

    /// The state of a contract. The client does not communicate: there is none.
    pub fn fetch_contract_state(&self, _address: &str) -> (r: Result<ContractState, ReplayError>)
        ensures
            r is Err,
            r->Err_0@ == (ReplayFault::NoLiteserver { endpoint: self.endpoint@ }),
    {
        Err(ReplayError::NoLiteserver { endpoint: self.endpoint.clone() })
    }

    /// What is known of a transaction. The client does not communicate: there
    /// is nothing.
    pub fn fetch_transaction(&self, _tx_hash: &str, _address: &str) -> (r: Result<
        TransactionInfo,
        ReplayError,
    >)
        ensures
            r is Err,
            r->Err_0@ == (ReplayFault::NoLiteserver { endpoint: self.endpoint@ }),
    {
        Err(ReplayError::NoLiteserver { endpoint: self.endpoint.clone() })
    }
}

/// The bytes with which a bag of cells begins.
pub open spec fn boc_magic() -> Seq<u8> {
    seq![0xb5u8, 0xee, 0x9c, 0x72]
}

/// The payload of a bag of cells: what follows the magic.
pub open spec fn boc_payload(bytes: Seq<u8>) -> Result<Seq<u8>, ReplayFault> {
    if bytes.len() < 4 {
        Err(ReplayFault::BocTooShort { len: bytes.len() as int })
    } else if bytes.take(4) != boc_magic() {
        Err(ReplayFault::BocMagic { found: bytes.take(4) })
    } else {
        Ok(bytes.skip(4))
    }
}

fn copy_range(bytes: &[u8], from: usize, to: usize) -> (r: Vec<u8>)
    requires
        from <= to <= bytes@.len(),
    ensures
        r@ == bytes@.subrange(from as int, to as int),
{
    let mut out: Vec<u8> = Vec::new();
    let mut i: usize = from;
    while i < to
        invariant
            from <= i <= to <= bytes@.len(),
            out@ == bytes@.subrange(from as int, i as int),
        decreases to - i,
    {
        out.push(bytes[i]);
        assert(out@ =~= bytes@.subrange(from as int, i + 1));
        i += 1;
    }
    out
}

/// The payload of a bag of cells.
///
/// The magic is checked, and the bytes behind it are returned as they are.
pub fn parse_boc(bytes: &[u8]) -> (r: Result<Vec<u8>, ReplayError>)
    ensures
        match boc_payload(bytes@) {
            Ok(payload) => r is Ok && r->Ok_0@ == payload,
            Err(e) => r is Err && r->Err_0@ == e,
        },
{
    if bytes.len() < 4 {
        return Err(ReplayError::BocTooShort { len: bytes.len() });
    }
    let matches = bytes[0] == 0xb5 && bytes[1] == 0xee && bytes[2] == 0x9c && bytes[3] == 0x72;
    proof {
        let first = bytes@.take(4);
        assert(first[0] == bytes@[0] && first[1] == bytes@[1] && first[2] == bytes@[2] && first[3]
            == bytes@[3]);
        let magic = boc_magic();
        assert(magic[0] == 0xb5 && magic[1] == 0xee && magic[2] == 0x9c && magic[3] == 0x72);
        if matches {
            assert(first =~= magic);
        }
    }
    if !matches {
        let found = copy_range(bytes, 0, 4);
        assert(found@ =~= bytes@.take(4));
        return Err(ReplayError::BocMagic { found });
    }
    let payload = copy_range(bytes, 4, bytes.len());
    assert(payload@ =~= bytes@.skip(4));
    Ok(payload)
}

/// The path under which a replay is recorded.
pub open spec fn replay_path(source_dir: Option<Seq<char>>) -> Seq<char> {
    match source_dir {
        Some(dir) => dir,
        None => "contract.tolk"@,
    }
}

/// The trace of a replayed transaction: a call that shows the balance of the
/// contract.
pub open spec fn replay_ops(
    tx_hash: Seq<char>,
    source_dir: Option<Seq<char>>,
    balance: u64,
) -> Seq<Op> {
    let path = replay_path(source_dir);
    seq![
        Op::Type { kind: TypeKind::Int, name: "int"@ },
        Op::Function { name: "replay:"@ + tx_hash, path, line: 1 },
        Op::Call,
        Op::Step { path, line: 1 },
        Op::Variable { name: "balance"@, value: Rec::Int { i: balance as i64, type_id: 0 } },
    ]
}

/// The path of the source that a replay is recorded under.
pub fn replay_source_path(config: &ReplayConfig) -> (r: String)
    ensures
        r@ == replay_path(text::opt_text(config.source_dir)),
{
    match &config.source_dir {
        Some(dir) => dir.clone(),
        None => "contract.tolk".to_owned(),
    }
}

/// The name of the program that a replay is a trace of: the sources, if they
/// are known, and the contract's address otherwise.
pub fn replay_label(config: &ReplayConfig) -> (r: String)
    ensures
        r@ == (match config.source_dir {
            Some(dir) => dir@,
            None => config.address@,
        }),
{
    match &config.source_dir {
        Some(dir) => dir.clone(),
        None => config.address.clone(),
    }
}

/// The trace of a transaction.
pub fn replay_trace(config: &ReplayConfig, tx_info: &TransactionInfo) -> (r: Vec<TraceOp>)
    ensures
        ops::ops_model(r@) == replay_ops(
            config.tx_hash@,
            text::opt_text(config.source_dir),
            tx_info.contract_state.balance,
        ),
{
    let mut out: Vec<TraceOp> = Vec::new();
    assert(ops::ops_model(out@) =~= Seq::empty());
    ops::push_op(&mut out, TraceOp::Type { kind: TypeKind::Int, name: "int".to_owned() });
    let name = text::concat2("replay:", config.tx_hash.as_str());
    ops::push_op(&mut out, TraceOp::Function { name, path: replay_source_path(config), line: 1 });
    ops::push_op(&mut out, TraceOp::Call);
    ops::push_op(&mut out, TraceOp::Step { path: replay_source_path(config), line: 1 });
    let value = Record::Int { i: tx_info.contract_state.balance as i64, type_id: 0 };
    ops::push_op(&mut out, TraceOp::Variable { name: "balance".to_owned(), value });
    assert(ops::ops_model(out@) =~= replay_ops(
        config.tx_hash@,
        text::opt_text(config.source_dir),
        tx_info.contract_state.balance,
    ));
    out
}

/// The trace of a transaction that is fetched from the Liteserver. The client
/// does not communicate: there is none.
pub fn replay_transaction(config: &ReplayConfig) -> (r: Result<Vec<TraceOp>, ReplayError>)
    ensures
        r is Err,
        r->Err_0@ == (ReplayFault::NoTransaction {
            tx_hash: config.tx_hash@,
            endpoint: config.endpoint@,
        }),
{
    let client = LiteserverClient::new(config.endpoint.as_str());
    match client.fetch_transaction(config.tx_hash.as_str(), config.address.as_str()) {
        Ok(info) => Ok(replay_trace(config, &info)),
        Err(_) => Err(
            ReplayError::NoTransaction {
                tx_hash: config.tx_hash.clone(),
                endpoint: config.endpoint.clone(),
            },
        ),
    }
}

/// A payload behind the magic is given back unchanged, and nothing else is a
/// bag of cells.
pub proof fn law_boc_gives_back_payload(bytes: Seq<u8>, payload: Seq<u8>)
    ensures
        boc_payload(boc_magic() + payload) == Ok::<Seq<u8>, ReplayFault>(payload),
        boc_payload(bytes) == Ok::<Seq<u8>, ReplayFault>(payload) ==> bytes == boc_magic()
            + payload,
{
    let whole = boc_magic() + payload;
    assert(whole.take(4) =~= boc_magic());
    assert(whole.skip(4) =~= payload);
    if boc_payload(bytes) == Ok::<Seq<u8>, ReplayFault>(payload) {
        assert(bytes =~= bytes.take(4) + bytes.skip(4));
    }
}

/// A replay is recorded as one call of a function named after the transaction,
/// in which the balance is shown as an integer: with its value, if a signed
/// integer can have it, under the first type, which is the type of integers.
/// Everything stands in the sources, or else in a file that stands for them.
pub proof fn law_replay_shows_the_balance(
    tx_hash: Seq<char>,
    source_dir: Option<Seq<char>>,
    balance: u64,
    path: Seq<char>,
)
    requires
        source_dir == Some(path) || source_dir is None && path == "contract.tolk"@,
        balance <= i64::MAX,
    ensures
        ({
            let ops = replay_ops(tx_hash, source_dir, balance);
            let shown = Op::Variable {
                name: "balance"@,
                value: Rec::Int { i: balance as i64, type_id: 0 },
            };
            &&& ops.contains(shown)
            &&& forall|i: int| 0 <= i < ops.len() && #[trigger] ops[i] is Variable ==> ops[i]
                == shown
            &&& forall|i: int|
                0 <= i < ops.len() ==> ((#[trigger] ops[i]) matches Op::Function {
                    name,
                    path: p,
                    ..
                } ==> name == "replay:"@ + tx_hash && p == path)
            &&& forall|i: int|
                0 <= i < ops.len() ==> ((#[trigger] ops[i]) matches Op::Step { path: p, .. } ==> p
                    == path)
            &&& forall|i: int|
                0 <= i < ops.len() ==> ((#[trigger] ops[i]) matches Op::Type { kind, .. } ==> i == 0
                    && kind == TypeKind::Int)
            &&& exists|i: int|
                0 < i < ops.len() - 1 && #[trigger] ops[i] is Call && ops[i - 1] is Function
                    && ops[i + 1] is Step
        }),
{
    let ops = replay_ops(tx_hash, source_dir, balance);
    assert(ops[4] is Variable);
    assert(ops[2] is Call && ops[1] is Function && ops[3] is Step);
}

} // verus!
