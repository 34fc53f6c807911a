//! Assembling a transfer: what is checked before a transaction is built,
//! which input is signed by which key and how far its signature commits,
//! and the witness that a signature becomes.

use vstd::prelude::*;

verus! {

/// The chain that a transaction is for.
#[derive(Debug, Clone, Copy, PartialEq, Eq, Structural)]
pub enum Network {
    Bitcoin,
    Testnet,
    Signet,
    Regtest,
}

/// How far a signature commits.
#[derive(Debug, Clone, Copy, PartialEq, Eq, Structural)]
pub enum InputSignatureType {
    /// To every input and every output.
    All,
    /// To the signed input alone and every output.
    AllPlusAnyoneCanPay,
}

/// The key that signs an input.
#[derive(Debug, Clone, Copy, PartialEq, Eq, Structural)]
pub enum KeyRole {
    /// The key that holds the assets.
    AssetCustody,
    /// The key that holds the bitcoin for fees.
    FeeCustody,
}

/// What is done about the witness of an input.
#[derive(Debug, Clone, Copy, PartialEq, Eq, Structural)]
pub enum InputRole {
    /// It is signed here.
    Sign { key: KeyRole, scope: InputSignatureType },
    /// Its witness came with the input and is passed on.
    Supplied,
    /// It stays without witness.
    Unsigned,
}

/// How far the assembly of a transaction has come. It never goes back.
#[derive(Debug, Clone, Copy, PartialEq, Eq, Structural)]
pub enum Stage {
    /// Inputs and outputs are being collected.
    Collecting,
    /// The unsigned transaction is built; no signature is in.
    Unsigned,
    /// Some signatures are in.
    PartiallySigned,
    /// Every signature is in.
    Finalized,
}

impl Stage {
    /// The place of a stage in their order.
    pub open spec fn rank(self) -> int {
        match self {
            Stage::Collecting => 0,
            Stage::Unsigned => 1,
            Stage::PartiallySigned => 2,
            Stage::Finalized => 3,
        }
    }
}

/// An input before signing.
#[derive(Debug)]
pub struct TransactionInput {
    pub txid: String,
    pub vout: u32,
    pub amount: u64,
    pub address: String,
    pub public_key: Option<String>,
    pub signature_type: Option<InputSignatureType>,
    /// A witness that was made elsewhere.
    pub witness: Option<Vec<u8>>,
}

/// An output: a payment to `address`, or, with `op_return`, a script that
/// carries data and receives nothing.
#[derive(Debug)]
pub struct TransactionOutput {
    pub address: String,
    pub amount: u64,
    pub op_return: Option<Vec<u8>>,
}

/// The finished transaction.
#[derive(Debug)]
pub struct TransactionResult {
    pub txid: String,
    pub psbt_base64: String,
    pub psbt_hex: String,
    pub vsize: u64,
}

/// Why a transaction was not built or not finished.
#[derive(Debug, Clone, Copy, PartialEq, Eq, Structural)]
pub enum TransactionError {
    /// The name of the network is none of the four.
    InvalidNetwork,
    NoInputs,
    NoOutputs,
    /// More funding inputs than inputs.
    TooManyFundingInputs,
    /// Not one role for each input.
    RolesMismatch,
    /// The identifier of the transaction that the input spends is malformed.
    InvalidTxid { input: usize },
    /// The public key of the input is no hexadecimal.
    InvalidPublicKey { input: usize },
    /// The output carries a script and a value.
    ScriptWithValue { output: usize },
    /// The address of the output is malformed.
    InvalidAddress { output: usize },
    /// The address of the output is of another network.
    NetworkMismatch { output: usize },
    /// The address of the input is malformed.
    InvalidInputAddress { input: usize },
    /// The address of the input is of another network.
    InputNetworkMismatch { input: usize },
    /// The input has no signature hash.
    SighashUnavailable { input: usize },
    /// The signature for the input is missing or has not 64 bytes.
    SignatureFormatError { input: usize },
    /// The transaction cannot be put together from its parts.
    AssemblyFailed,
}

/// The network that a name in lower case stands for.
pub open spec fn network_of(name: Seq<u8>) -> Option<Network> {
    if name == seq![0x6du8, 0x61, 0x69, 0x6e, 0x6e, 0x65, 0x74] {
        Some(Network::Bitcoin)
    } else if name == seq![0x74u8, 0x65, 0x73, 0x74, 0x6e, 0x65, 0x74] {
        Some(Network::Testnet)
    } else if name == seq![0x73u8, 0x69, 0x67, 0x6e, 0x65, 0x74] {
        Some(Network::Signet)
    } else if name == seq![0x72u8, 0x65, 0x67, 0x74, 0x65, 0x73, 0x74] {
        Some(Network::Regtest)
    } else {
        None
    }
}

/// What `str::to_lowercase` gives for a text.
pub uninterp spec fn lowercased(text: Seq<char>) -> Seq<char>;

/// `str::to_lowercase`, by the name of its result.
#[verifier::external_body]
fn lowercase(text: &str) -> (lowered: String)
    ensures
        lowered@ == lowercased(text@),
{
    text.to_lowercase()
}

/// Whether `bytes` are the seven given bytes.
fn is_word7(bytes: &[u8], w: [u8; 7]) -> (r: bool)
    ensures
        r == (bytes@ == w@),
{
    let r = bytes.len() == 7 && bytes[0] == w[0] && bytes[1] == w[1] && bytes[2] == w[2]
        && bytes[3] == w[3] && bytes[4] == w[4] && bytes[5] == w[5] && bytes[6] == w[6];
    proof {
        if r {
            assert(bytes@ =~= w@);
        }
    }
    r
}

/// The network that `name` stands for: `mainnet`, `testnet`, `signet` or
/// `regtest`, in lower case.
pub fn network_named(name: &str) -> (r: Option<Network>)
    ensures
        r == network_of(vstd::utf8::encode_utf8(name@)),
{
    let b = name.as_bytes();
    let mainnet: [u8; 7] = [0x6d, 0x61, 0x69, 0x6e, 0x6e, 0x65, 0x74];
    let testnet: [u8; 7] = [0x74, 0x65, 0x73, 0x74, 0x6e, 0x65, 0x74];
    let regtest: [u8; 7] = [0x72, 0x65, 0x67, 0x74, 0x65, 0x73, 0x74];
    proof {
        assert(mainnet@ =~= seq![0x6du8, 0x61, 0x69, 0x6e, 0x6e, 0x65, 0x74]);
        assert(testnet@ =~= seq![0x74u8, 0x65, 0x73, 0x74, 0x6e, 0x65, 0x74]);
        assert(regtest@ =~= seq![0x72u8, 0x65, 0x67, 0x74, 0x65, 0x73, 0x74]);
    }
    if is_word7(b, mainnet) {
        Some(Network::Bitcoin)
    } else if is_word7(b, testnet) {
        Some(Network::Testnet)
    } else if b.len() == 6 && b[0] == 0x73 && b[1] == 0x69 && b[2] == 0x67 && b[3] == 0x6e && b[4]
        == 0x65 && b[5] == 0x74 {
        assert(b@ =~= seq![0x73u8, 0x69, 0x67, 0x6e, 0x65, 0x74]);
        Some(Network::Signet)
    } else if is_word7(b, regtest) {
        Some(Network::Regtest)
    } else {
        proof {
            let signet = seq![0x73u8, 0x69, 0x67, 0x6e, 0x65, 0x74];
            if b@ == signet {
                assert(b@.len() == 6 && b@[0] == signet[0] && b@[1] == signet[1] && b@[2]
                    == signet[2] && b@[3] == signet[3] && b@[4] == signet[4] && b@[5]
                    == signet[5]);
            }
        }
        None
    }
}

/// The network that `network_type` names, in whatever case it is written;
/// an error where it names none.
pub fn parse_network(network_type: &str) -> (r: Result<Network, TransactionError>)
    ensures
        match network_of(vstd::utf8::encode_utf8(lowercased(network_type@))) {
            Some(network) => r == Ok::<Network, TransactionError>(network),
            None => r == Err::<Network, TransactionError>(TransactionError::InvalidNetwork),
        },
{
    let lowered = lowercase(network_type);
    match network_named(lowered.as_str()) {
        Some(network) => Ok(network),
        None => Err(TransactionError::InvalidNetwork),
    }
}

/// The first output from `from` on that carries a script and a value.
pub open spec fn first_script_with_value(outputs: Seq<TransactionOutput>, from: int) -> Option<int>
    decreases outputs.len() - from,
{
    if from < 0 || from >= outputs.len() {
        None
    } else if outputs[from].op_return is Some && outputs[from].amount != 0 {
        Some(from)
    } else {
        first_script_with_value(outputs, from + 1)
    }
}

/// What is wrong with the shape of a transfer, if anything: no input, no
/// output, an output with a script and a value (the first such), or more
/// funding inputs than inputs.
pub open spec fn shape_fault(
    inputs: Seq<TransactionInput>,
    outputs: Seq<TransactionOutput>,
    funding_inputs: int,
) -> Option<TransactionError> {
    if inputs.len() == 0 {
        Some(TransactionError::NoInputs)
    } else if outputs.len() == 0 {
        Some(TransactionError::NoOutputs)
    } else if first_script_with_value(outputs, 0) is Some {
        Some(
            TransactionError::ScriptWithValue {
                output: first_script_with_value(outputs, 0).unwrap() as usize,
            },
        )
    } else if funding_inputs > inputs.len() {
        Some(TransactionError::TooManyFundingInputs)
    } else {
        None
    }
}

/// Checks the shape of a transfer. An output below the dust threshold is
/// not refused here.
pub fn check_shape(
    inputs: &Vec<TransactionInput>,
    outputs: &Vec<TransactionOutput>,
    funding_inputs: usize,
) -> (r: Result<(), TransactionError>)
    ensures
        match r {
            Ok(()) => shape_fault(inputs@, outputs@, funding_inputs as int) is None,
            Err(e) => shape_fault(inputs@, outputs@, funding_inputs as int) == Some(e),
        },
{
    if inputs.len() == 0 {
        return Err(TransactionError::NoInputs);
    }
    if outputs.len() == 0 {
        return Err(TransactionError::NoOutputs);
    }
    let mut i: usize = 0;
    while i < outputs.len()
        invariant
            i <= outputs.len(),
            inputs.len() > 0,
            first_script_with_value(outputs@, 0) == first_script_with_value(outputs@, i as int),
        decreases outputs.len() - i,
    {
        if outputs[i].op_return.is_some() && outputs[i].amount != 0 {
            return Err(TransactionError::ScriptWithValue { output: i });
        }
        i += 1;
    }
    if funding_inputs > inputs.len() {
        return Err(TransactionError::TooManyFundingInputs);
    }
    Ok(())
}

/// What is done about the input `index` of `count`, of which the last
/// `funding` pay the fee: a funding input is signed by the key for fees,
/// committing to itself alone and all outputs; before them the first input
/// is signed by the key for the assets, committing to everything; another
/// input keeps the witness that came with it, or has none.
pub open spec fn role_of(index: int, count: int, funding: int, has_witness: bool) -> InputRole {
    if index >= count - funding {
        InputRole::Sign { key: KeyRole::FeeCustody, scope: InputSignatureType::AllPlusAnyoneCanPay }
    } else if index == 0 {
        InputRole::Sign { key: KeyRole::AssetCustody, scope: InputSignatureType::All }
    } else if has_witness {
        InputRole::Supplied
    } else {
        InputRole::Unsigned
    }
}

/// The roles of all inputs.
pub fn input_roles(inputs: &Vec<TransactionInput>, funding_inputs: usize) -> (roles: Vec<InputRole>)
    requires
        funding_inputs <= inputs.len(),
    ensures
        roles.len() == inputs.len(),
        forall|i: int|
            0 <= i < inputs.len() ==> #[trigger] roles[i] == role_of(
                i,
                inputs.len() as int,
                funding_inputs as int,
                inputs[i].witness is Some,
            ),
{
    let mut roles: Vec<InputRole> = Vec::new();
    let first_funding: usize = inputs.len() - funding_inputs;
    let mut i: usize = 0;
    while i < inputs.len()
        invariant
            i <= inputs.len(),
            first_funding == inputs.len() - funding_inputs,
            roles.len() == i,
            forall|j: int|
                0 <= j < i ==> #[trigger] roles[j] == role_of(
                    j,
                    inputs.len() as int,
                    funding_inputs as int,
                    inputs[j].witness is Some,
                ),
        decreases inputs.len() - i,
    {
        let role = if i >= first_funding {
            InputRole::Sign {
                key: KeyRole::FeeCustody,
                scope: InputSignatureType::AllPlusAnyoneCanPay,
            }
        } else if i == 0 {
            InputRole::Sign { key: KeyRole::AssetCustody, scope: InputSignatureType::All }
        } else if inputs[i].witness.is_some() {
            InputRole::Supplied
        } else {
            InputRole::Unsigned
        };
        roles.push(role);
        i += 1;
    }
    roles
}

/// What is done about an input by what the input itself says: the
/// witness that came with it is passed on; without one, the input is
/// signed as far as its signature type says, by the key for the assets
/// where the signature commits to everything and by the key for fees
/// where it commits to the input alone; without either it stays unsigned.
pub open spec fn declared_role(has_witness: bool, scope: Option<InputSignatureType>) -> InputRole {
    if has_witness {
        InputRole::Supplied
    } else {
        match scope {
            Some(InputSignatureType::All) => InputRole::Sign {
                key: KeyRole::AssetCustody,
                scope: InputSignatureType::All,
            },
            Some(InputSignatureType::AllPlusAnyoneCanPay) => InputRole::Sign {
                key: KeyRole::FeeCustody,
                scope: InputSignatureType::AllPlusAnyoneCanPay,
            },
            None => InputRole::Unsigned,
        }
    }
}

/// The roles that the inputs themselves declare.
pub fn declared_roles(inputs: &Vec<TransactionInput>) -> (roles: Vec<InputRole>)
    ensures
        roles.len() == inputs.len(),
        forall|i: int|
            0 <= i < inputs.len() ==> #[trigger] roles[i] == declared_role(
                inputs[i].witness is Some,
                inputs[i].signature_type,
            ),
{
    let mut roles: Vec<InputRole> = Vec::new();
    let mut i: usize = 0;
    while i < inputs.len()
        invariant
            i <= inputs.len(),
            roles.len() == i,
            forall|j: int|
                0 <= j < i ==> #[trigger] roles[j] == declared_role(
                    inputs[j].witness is Some,
                    inputs[j].signature_type,
                ),
        decreases inputs.len() - i,
    {
        let role = if inputs[i].witness.is_some() {
            InputRole::Supplied
        } else {
            match inputs[i].signature_type {
                Some(InputSignatureType::All) => InputRole::Sign {
                    key: KeyRole::AssetCustody,
                    scope: InputSignatureType::All,
                },
                Some(InputSignatureType::AllPlusAnyoneCanPay) => InputRole::Sign {
                    key: KeyRole::FeeCustody,
                    scope: InputSignatureType::AllPlusAnyoneCanPay,
                },
                None => InputRole::Unsigned,
            }
        };
        roles.push(role);
        i += 1;
    }
    roles
}

/// The byte that names how far a signature commits.
pub open spec fn scope_byte(scope: InputSignatureType) -> u8 {
    match scope {
        InputSignatureType::All => 0x01,
        InputSignatureType::AllPlusAnyoneCanPay => 0x81,
    }
}

/// The witness item of a signature: its 64 bytes and the byte of its scope.
pub open spec fn signature_item(signature: Seq<u8>, scope: InputSignatureType) -> Option<Seq<u8>> {
    if signature.len() == 64 {
        Some(signature.push(scope_byte(scope)))
    } else {
        None
    }
}

/// `secp256k1::schnorr::Signature::from_slice` and
/// `bitcoin::taproot::Signature::to_vec`. The first accepts 64 bytes,
/// whatever they are, and nothing else; the second gives them back with
/// the byte of the signature's scope behind them.
#[verifier::external_body]
pub(crate) fn taproot_signature_item(signature: &[u8], scope: InputSignatureType) -> (r: Option<Vec<u8>>)
    ensures
        match r {
            Some(item) => signature_item(signature@, scope) == Some(item@),
            None => signature_item(signature@, scope) is None,
        },
{
    let sighash_type = match scope {
        InputSignatureType::All => bitcoin::TapSighashType::All,
        InputSignatureType::AllPlusAnyoneCanPay => bitcoin::TapSighashType::AllPlusAnyoneCanPay,
    };
    match bitcoin::secp256k1::schnorr::Signature::from_slice(signature) {
        Ok(signature) => Some(bitcoin::taproot::Signature { signature, sighash_type }.to_vec()),
        Err(_) => None,
    }
}

/// The derivation path of the key with the name `input`: the bytes of
/// the name, as its only element.
pub fn get_derivation_path(input: &str) -> (path: Vec<Vec<u8>>)
    ensures
        path.len() == 1,
        path[0]@ == vstd::utf8::encode_utf8(input@),
{
    let bytes = input.as_bytes();
    let mut name: Vec<u8> = Vec::new();
    let mut i: usize = 0;
    while i < bytes.len()
        invariant
            i <= bytes.len(),
            name@ == bytes@.take(i as int),
        decreases bytes.len() - i,
    {
        name.push(bytes[i]);
        i += 1;
        assert(name@ =~= bytes@.take(i as int));
    }
    assert(bytes@.take(bytes@.len() as int) =~= bytes@);
    let mut path: Vec<Vec<u8>> = Vec::new();
    path.push(name);
    path
}

} // verus!
