//! From a checked transfer to the unsigned transaction with the hashes to
//! sign, and from the signatures to the finished transaction.

use crate::psbt_text::{base64_encode, base64_encoded, hex_decode, unhex};
use crate::transaction::{
    declared_role, declared_roles, input_roles, role_of, signature_item, taproot_signature_item,
    InputRole, InputSignatureType, Network, Stage, TransactionError, TransactionInput,
    TransactionOutput, TransactionResult,
};
use bitcoin::sighash::{Prevouts, SighashCache};
use bitcoin::{
    Amount, OutPoint, Psbt, ScriptBuf, Sequence, TapSighashType, Transaction, TxIn, TxOut, Txid,
    Witness,
};
use vstd::prelude::*;

verus! {

/// `bitcoin::Transaction`, carried from the call that makes it to the
/// calls that hash and finish it.
#[verifier::external_type_specification]
#[verifier::external_body]
pub struct ExTransaction(bitcoin::Transaction);

/// The sequence number of every input: replaceable, without lock time.
pub const INPUT_SEQUENCE: u32 = 0xffff_fffd;

/// An input of an unsigned transaction: the output that it spends, and
/// its sequence number.
#[derive(Debug, Clone, Copy)]
pub struct SpentOutput {
    /// The identifier of the spent transaction, in the order of the wire.
    pub txid: [u8; 32],
    pub vout: u32,
    pub sequence: u32,
}

/// An input of an unsigned transaction as a mathematical value.
pub struct SpentOutputView {
    pub txid: Seq<u8>,
    pub vout: u32,
    pub sequence: u32,
}

impl View for SpentOutput {
    type V = SpentOutputView;

    open spec fn view(&self) -> SpentOutputView {
        SpentOutputView { txid: self.txid@, vout: self.vout, sequence: self.sequence }
    }
}

/// The inputs of a list, each as a mathematical value.
pub open spec fn spent_views(inputs: Seq<SpentOutput>) -> Seq<SpentOutputView> {
    inputs.map_values(|i: SpentOutput| i@)
}

/// An output as value and script.
#[derive(Debug)]
pub struct PlainOutput {
    pub value: u64,
    pub script: Vec<u8>,
}

/// An output as a mathematical value.
pub struct PlainOutputView {
    pub value: u64,
    pub script: Seq<u8>,
}

impl View for PlainOutput {
    type V = PlainOutputView;

    open spec fn view(&self) -> PlainOutputView {
        PlainOutputView { value: self.value, script: self.script@ }
    }
}

/// Why an address gives no script.
#[derive(Debug, Clone, Copy, PartialEq, Eq, Structural)]
pub enum AddressFault {
    Malformed,
    OtherNetwork,
}

/// The outputs of a list, each as a mathematical value.
pub open spec fn output_views(outputs: Seq<PlainOutput>) -> Seq<PlainOutputView> {
    outputs.map_values(|o: PlainOutput| o@)
}

/// An optional byte string as a mathematical value.
pub open spec fn bytes_view(bytes: Option<Vec<u8>>) -> Option<Seq<u8>> {
    match bytes {
        Some(b) => Some(b@),
        None => None,
    }
}

/// The optional byte strings of a list, each as a mathematical value.
pub open spec fn items_view(items: Seq<Option<Vec<u8>>>) -> Seq<Option<Seq<u8>>> {
    items.map_values(|w: Option<Vec<u8>>| bytes_view(w))
}

/// The 32 bytes of a transaction identifier in text: 64 hexadecimal
/// digits, which name the bytes from the last to the first.
pub open spec fn txid_bytes(text: Seq<u8>) -> Option<Seq<u8>> {
    if text.len() == 64 && unhex(text) is Some {
        Some(unhex(text).unwrap().reverse())
    } else {
        None
    }
}

/// The script that pays to an address on a network, as `Address::from_str`
/// reads it, `require_network` admits it and `script_pubkey` writes it.
pub uninterp spec fn address_script(address: Seq<char>, network: Network) -> Result<
    Seq<u8>,
    AddressFault,
>;

/// The version and the lock time of a transaction, in this order.
pub uninterp spec fn skeleton_header(tx: bitcoin::Transaction) -> Seq<i64>;

/// The inputs of a transaction: what each spends, and its sequence number.
pub uninterp spec fn skeleton_inputs(tx: bitcoin::Transaction) -> Seq<SpentOutputView>;

/// The outputs of a transaction.
pub uninterp spec fn skeleton_outputs(tx: bitcoin::Transaction) -> Seq<PlainOutputView>;

/// The hash that a taproot key-spend signature of the input `index`
/// signs, for a transaction of this version and lock time, these inputs
/// and outputs, with the outputs that the inputs spend. Without
/// `anyone_can_pay` it commits to all inputs, with it to the signed input alone.
pub uninterp spec fn key_spend_sighash(
    header: Seq<i64>,
    inputs: Seq<SpentOutputView>,
    outputs: Seq<PlainOutputView>,
    prevouts: Seq<PlainOutputView>,
    index: int,
    anyone_can_pay: bool,
) -> Option<Seq<u8>>;

/// The identifier of a transaction of this version and lock time, these
/// inputs without scripts, and these outputs, as text.
pub uninterp spec fn txid_text(
    header: Seq<i64>,
    inputs: Seq<SpentOutputView>,
    outputs: Seq<PlainOutputView>,
) -> Seq<char>;

/// The serialisation of the partially signed transaction that holds such
/// an unsigned transaction and, for each input, the output that it spends
/// and its final witness item, if it has one.
pub uninterp spec fn serialized_psbt(
    header: Seq<i64>,
    inputs: Seq<SpentOutputView>,
    outputs: Seq<PlainOutputView>,
    prevouts: Seq<PlainOutputView>,
    witnesses: Seq<Option<Seq<u8>>>,
) -> Seq<u8>;

/// Whether a finished transaction can be extracted from a transaction
/// with, for each input, the output that it spends and its final witness
/// item: the transaction carries no script and no witness itself, every
/// input has its spent output, and the inputs hold no less than the
/// outputs receive, nor absurdly more for the size.
pub uninterp spec fn extracts(
    tx: bitcoin::Transaction,
    prevouts: Seq<PlainOutputView>,
    witnesses: Seq<Option<Seq<u8>>>,
) -> bool;

/// The virtual size of such a transaction with these witness items.
pub uninterp spec fn signed_vsize(
    header: Seq<i64>,
    inputs: Seq<SpentOutputView>,
    outputs: Seq<PlainOutputView>,
    witnesses: Seq<Option<Seq<u8>>>,
) -> u64;

/// The two characters of a byte in hexadecimal, lower case.
pub open spec fn hex_digit(n: int) -> char {
    if n < 10 {
        (0x30 + n) as char
    } else {
        (0x61 + n - 10) as char
    }
}

/// Bytes in hexadecimal, lower case, two digits to a byte.
pub open spec fn hex_text(bytes: Seq<u8>) -> Seq<char> {
    Seq::new(
        2 * bytes.len(),
        |i: int|
            if i % 2 == 0 {
                hex_digit(bytes[i / 2] as int / 16)
            } else {
                hex_digit(bytes[i / 2] as int % 16)
            },
    )
}

/// `Txid::from_str` and `to_byte_array`. The first reads, as its source
/// shows, exactly 64 bytes of text, two hexadecimal digits in either case
/// for each byte of the identifier, and turns the bytes round.
#[verifier::external_body]
fn parse_txid(text: &str) -> (r: Option<[u8; 32]>)
    ensures
        match r {
            Some(id) => txid_bytes(vstd::utf8::encode_utf8(text@)) == Some(id@),
            None => txid_bytes(vstd::utf8::encode_utf8(text@)) is None,
        },
{
    match <Txid as core::str::FromStr>::from_str(text) {
        Ok(id) => Some(bitcoin::hashes::Hash::to_byte_array(id)),
        Err(_) => None,
    }
}

/// `Address::from_str`, `require_network` and `script_pubkey`, by the name
/// of the result: the script, or which of the first two refused.
#[verifier::external_body]
fn script_for_address(address: &str, network: Network) -> (r: Result<Vec<u8>, AddressFault>)
    ensures
        match r {
            Ok(script) => address_script(address@, network) == Ok::<Seq<u8>, AddressFault>(script@),
            Err(e) => address_script(address@, network) == Err::<Seq<u8>, AddressFault>(e),
        },
{
    let on = match network {
        Network::Bitcoin => bitcoin::Network::Bitcoin,
        Network::Testnet => bitcoin::Network::Testnet,
        Network::Signet => bitcoin::Network::Signet,
        Network::Regtest => bitcoin::Network::Regtest,
    };
    match <bitcoin::Address<bitcoin::address::NetworkUnchecked> as core::str::FromStr>::from_str(address) {
        Ok(parsed) => match parsed.require_network(on) {
            Ok(checked) => Ok(checked.script_pubkey().into_bytes()),
            Err(_) => Err(AddressFault::OtherNetwork),
        },
        Err(_) => Err(AddressFault::Malformed),
    }
}

/// A `bitcoin::Transaction` of version 2 without lock time, with the
/// given inputs, each with its sequence number and without script or
/// witness, and the given outputs.
#[verifier::external_body]
fn make_skeleton(inputs: &Vec<SpentOutput>, outputs: &Vec<PlainOutput>) -> (tx: bitcoin::Transaction)
    ensures
        skeleton_header(tx) == seq![2i64, 0i64],
        skeleton_inputs(tx) == spent_views(inputs@),
        skeleton_outputs(tx) == output_views(outputs@),
{
    Transaction {
        version: bitcoin::transaction::Version::TWO,
        lock_time: bitcoin::absolute::LockTime::ZERO,
        input: inputs.iter().map(|i| TxIn {
            previous_output: OutPoint::new(bitcoin::hashes::Hash::from_byte_array(i.txid), i.vout),
            sequence: Sequence(i.sequence),
            ..Default::default()
        }).collect(),
        output: outputs.iter().map(|o| TxOut {
            value: Amount::from_sat(o.value),
            script_pubkey: ScriptBuf::from_bytes(o.script.clone()),
        }).collect(),
    }
}

/// `SighashCache::taproot_key_spend_signature_hash`, with
/// `Prevouts::All` and `TapSighashType::All`, or with `Prevouts::One` and
/// `TapSighashType::AllPlusAnyoneCanPay`, by the name of the result.
#[verifier::external_body]
fn sighash_for(
    tx: &bitcoin::Transaction,
    prevouts: &Vec<PlainOutput>,
    index: usize,
    scope: InputSignatureType,
) -> (r: Option<Vec<u8>>)
    requires
        index < prevouts.len(),
    ensures
        bytes_view(r) == key_spend_sighash(
            skeleton_header(*tx),
            skeleton_inputs(*tx),
            skeleton_outputs(*tx),
            output_views(prevouts@),
            index as int,
            scope == InputSignatureType::AllPlusAnyoneCanPay,
        ),
{
    let spent: Vec<TxOut> = prevouts.iter().map(|o| TxOut {
        value: Amount::from_sat(o.value),
        script_pubkey: ScriptBuf::from_bytes(o.script.clone()),
    }).collect();
    let mut cache = SighashCache::new(tx);
    let hash = match scope {
        InputSignatureType::All => cache.taproot_key_spend_signature_hash(index, &Prevouts::All(&spent), TapSighashType::All),
        InputSignatureType::AllPlusAnyoneCanPay => cache.taproot_key_spend_signature_hash(index, &Prevouts::One(index, &spent[index]), TapSighashType::AllPlusAnyoneCanPay),
    };
    hash.ok().map(|h| bitcoin::hashes::Hash::to_byte_array(h).to_vec())
}

/// `Psbt::from_unsigned_tx`, with the spent output of each input as its
/// `witness_utxo` and its witness item, where it has one, as its
/// `final_script_witness`; then `Psbt::extract_tx`, and of what comes out
/// `compute_txid` and `vsize`, and `Psbt::serialize`. Whether both succeed
/// is a matter of the arguments alone and has its name; where they do, the
/// result is the identifier as text, the serialisation and the virtual
/// size, each by its name. A transaction whose inputs carry a script or a
/// witness is refused by the first, so those three names need not know of
/// them.
#[verifier::external_body]
fn finish_psbt(
    tx: &bitcoin::Transaction,
    prevouts: &Vec<PlainOutput>,
    witnesses: &Vec<Option<Vec<u8>>>,
) -> (r: Option<(String, Vec<u8>, u64)>)
    requires
        prevouts.len() == skeleton_inputs(*tx).len(),
        witnesses.len() == skeleton_inputs(*tx).len(),
    ensures
        r is Some <==> extracts(*tx, output_views(prevouts@), items_view(witnesses@)),
        r matches Some(done) ==> {
            &&& done.0@ == txid_text(
                skeleton_header(*tx),
                skeleton_inputs(*tx),
                skeleton_outputs(*tx),
            )
            &&& done.1@ == serialized_psbt(
                skeleton_header(*tx),
                skeleton_inputs(*tx),
                skeleton_outputs(*tx),
                output_views(prevouts@),
                items_view(witnesses@),
            )
            &&& done.2 == signed_vsize(
                skeleton_header(*tx),
                skeleton_inputs(*tx),
                skeleton_outputs(*tx),
                items_view(witnesses@),
            )
        },
{
    let mut psbt = Psbt::from_unsigned_tx(tx.clone()).ok()?;
    for (slot, (spent, item)) in psbt.inputs.iter_mut().zip(prevouts.iter().zip(witnesses)) {
        slot.witness_utxo = Some(TxOut {
            value: Amount::from_sat(spent.value),
            script_pubkey: ScriptBuf::from_bytes(spent.script.clone()),
        });
        slot.final_script_witness = item.as_ref().map(|w| Witness::from_slice(&[w]));
    }
    let signed = psbt.clone().extract_tx().ok()?;
    Some((signed.compute_txid().to_string(), psbt.serialize(), signed.vsize() as u64))
}

/// `hex::encode`: two digits in lower case for each byte, the higher first.
#[verifier::external_body]
fn hex_encode(bytes: &Vec<u8>) -> (text: String)
    ensures
        text@ == hex_text(bytes@),
{
    hex::encode(bytes)
}

/// An unsigned transaction and what signing it needs.
pub struct UnsignedTransaction {
    pub tx: bitcoin::Transaction,
    /// The output that each input spends.
    pub prevouts: Vec<PlainOutput>,
    pub roles: Vec<InputRole>,
    /// The witness that came with each input, if any.
    pub supplied: Vec<Option<Vec<u8>>>,
    /// The hash to sign for each input that is signed here.
    pub sighashes: Vec<Option<Vec<u8>>>,
}

impl UnsignedTransaction {
    /// Whether there is one entry of each kind for each input.
    pub open spec fn wf(&self) -> bool {
        &&& self.prevouts.len() == skeleton_inputs(self.tx).len()
        &&& self.roles.len() == skeleton_inputs(self.tx).len()
        &&& self.supplied.len() == skeleton_inputs(self.tx).len()
        &&& self.sighashes.len() == skeleton_inputs(self.tx).len()
    }
}

/// What is wrong with an input by itself: its transaction identifier, or
/// its public key, which is checked where it is given.
pub open spec fn input_fault(input: TransactionInput, index: int) -> Option<TransactionError> {
    if txid_bytes(vstd::utf8::encode_utf8(input.txid@)) is None {
        Some(TransactionError::InvalidTxid { input: index as usize })
    } else if input.public_key is Some && unhex(
        vstd::utf8::encode_utf8(input.public_key.unwrap()@),
    ) is None {
        Some(TransactionError::InvalidPublicKey { input: index as usize })
    } else {
        None
    }
}

/// The first fault of an input from `from` on.
pub open spec fn first_input_fault(inputs: Seq<TransactionInput>, from: int) -> Option<
    TransactionError,
>
    decreases inputs.len() - from,
{
    if from < 0 || from >= inputs.len() {
        None
    } else if input_fault(inputs[from], from) is Some {
        input_fault(inputs[from], from)
    } else {
        first_input_fault(inputs, from + 1)
    }
}

/// What is wrong with an output: a script together with a value, or an
/// address that gives no script on the network.
pub open spec fn output_fault(output: TransactionOutput, index: int, network: Network) -> Option<
    TransactionError,
> {
    if output.op_return is Some {
        if output.amount != 0 {
            Some(TransactionError::ScriptWithValue { output: index as usize })
        } else {
            None
        }
    } else {
        match address_script(output.address@, network) {
            Ok(_) => None,
            Err(AddressFault::Malformed) => Some(
                TransactionError::InvalidAddress { output: index as usize },
            ),
            Err(AddressFault::OtherNetwork) => Some(
                TransactionError::NetworkMismatch { output: index as usize },
            ),
        }
    }
}

/// The first fault of an output from `from` on.
pub open spec fn first_output_fault(
    outputs: Seq<TransactionOutput>,
    from: int,
    network: Network,
) -> Option<TransactionError>
    decreases outputs.len() - from,
{
    if from < 0 || from >= outputs.len() {
        None
    } else if output_fault(outputs[from], from, network) is Some {
        output_fault(outputs[from], from, network)
    } else {
        first_output_fault(outputs, from + 1, network)
    }
}

/// What is wrong with the address that an input spends from.
pub open spec fn prevout_fault(input: TransactionInput, index: int, network: Network) -> Option<
    TransactionError,
> {
    match address_script(input.address@, network) {
        Ok(_) => None,
        Err(AddressFault::Malformed) => Some(
            TransactionError::InvalidInputAddress { input: index as usize },
        ),
        Err(AddressFault::OtherNetwork) => Some(
            TransactionError::InputNetworkMismatch { input: index as usize },
        ),
    }
}

/// The first fault of an input's address from `from` on.
pub open spec fn first_prevout_fault(
    inputs: Seq<TransactionInput>,
    from: int,
    network: Network,
) -> Option<TransactionError>
    decreases inputs.len() - from,
{
    if from < 0 || from >= inputs.len() {
        None
    } else if prevout_fault(inputs[from], from, network) is Some {
        prevout_fault(inputs[from], from, network)
    } else {
        first_prevout_fault(inputs, from + 1, network)
    }
}

/// What each input spends.
pub open spec fn spent_of(inputs: Seq<TransactionInput>) -> Seq<SpentOutputView> {
    inputs.map_values(
        |i: TransactionInput|
            SpentOutputView {
                txid: txid_bytes(vstd::utf8::encode_utf8(i.txid@)).unwrap(),
                vout: i.vout,
                sequence: INPUT_SEQUENCE,
            },
    )
}

/// An output as value and script: the script that it carries, with no
/// value, or its amount and the script of its address.
pub open spec fn resolved_output(output: TransactionOutput, network: Network) -> PlainOutputView {
    match output.op_return {
        Some(script) => PlainOutputView { value: 0, script: script@ },
        None => PlainOutputView {
            value: output.amount,
            script: address_script(output.address@, network).unwrap(),
        },
    }
}

/// The outputs as values and scripts.
pub open spec fn outputs_of(outputs: Seq<TransactionOutput>, network: Network) -> Seq<
    PlainOutputView,
> {
    outputs.map_values(|o: TransactionOutput| resolved_output(o, network))
}

/// The outputs that the inputs spend: their amounts and the scripts of
/// their addresses.
pub open spec fn prevouts_of(inputs: Seq<TransactionInput>, network: Network) -> Seq<
    PlainOutputView,
> {
    inputs.map_values(
        |i: TransactionInput|
            PlainOutputView {
                value: i.amount,
                script: address_script(i.address@, network).unwrap(),
            },
    )
}

/// The witnesses that came with the inputs.
pub open spec fn supplied_of(inputs: Seq<TransactionInput>) -> Seq<Option<Seq<u8>>> {
    inputs.map_values(|i: TransactionInput| bytes_view(i.witness))
}

/// The hash to sign for an input: for an input that is signed here the
/// hash that commits as far as its role says; for another none.
pub open spec fn hash_for(
    header: Seq<i64>,
    spent: Seq<SpentOutputView>,
    outputs: Seq<PlainOutputView>,
    prevouts: Seq<PlainOutputView>,
    role: InputRole,
    index: int,
) -> Option<Seq<u8>> {
    match role {
        InputRole::Sign { key, scope } => key_spend_sighash(
            header,
            spent,
            outputs,
            prevouts,
            index,
            scope == InputSignatureType::AllPlusAnyoneCanPay,
        ),
        _ => None,
    }
}

/// The first input from `from` on that is signed here and has no hash to sign.
pub open spec fn first_hash_fault(
    header: Seq<i64>,
    spent: Seq<SpentOutputView>,
    outputs: Seq<PlainOutputView>,
    prevouts: Seq<PlainOutputView>,
    roles: Seq<InputRole>,
    from: int,
) -> Option<int>
    decreases roles.len() - from,
{
    if from < 0 || from >= roles.len() {
        None
    } else if roles[from] is Sign && hash_for(header, spent, outputs, prevouts, roles[from], from)
        is None {
        Some(from)
    } else {
        first_hash_fault(header, spent, outputs, prevouts, roles, from + 1)
    }
}

/// A copy of `bytes`.
fn copy_bytes(bytes: &Vec<u8>) -> (copy: Vec<u8>)
    ensures
        copy@ == bytes@,
{
    let mut copy: Vec<u8> = Vec::new();
    let mut i: usize = 0;
    while i < bytes.len()
        invariant
            i <= bytes.len(),
            copy@ == bytes@.take(i as int),
        decreases bytes.len() - i,
    {
        copy.push(bytes[i]);
        i += 1;
        assert(copy@ =~= bytes@.take(i as int));
    }
    assert(bytes@.take(bytes@.len() as int) =~= bytes@);
    copy
}

/// What the inputs spend, or the first fault of an input.
fn resolve_inputs(inputs: &Vec<TransactionInput>) -> (r: Result<Vec<SpentOutput>, TransactionError>)
    ensures
        match r {
            Ok(spent) => first_input_fault(inputs@, 0) is None && spent_views(spent@) == spent_of(
                inputs@,
            ),
            Err(e) => first_input_fault(inputs@, 0) == Some(e),
        },
{
    let mut spent: Vec<SpentOutput> = Vec::new();
    let mut i: usize = 0;
    assert(spent_views(spent@) =~= spent_of(inputs@.take(0)));
    while i < inputs.len()
        invariant
            i <= inputs.len(),
            first_input_fault(inputs@, 0) == first_input_fault(inputs@, i as int),
            spent_views(spent@) == spent_of(inputs@.take(i as int)),
        decreases inputs.len() - i,
    {
        let input = &inputs[i];
        let txid = match parse_txid(input.txid.as_str()) {
            Some(id) => id,
            None => {
                return Err(TransactionError::InvalidTxid { input: i });
            },
        };
        if let Some(pk) = &input.public_key {
            if hex_decode(pk.as_str()).is_none() {
                return Err(TransactionError::InvalidPublicKey { input: i });
            }
        }
        let ghost before = spent_views(spent@);
        let one = SpentOutput { txid, vout: input.vout, sequence: INPUT_SEQUENCE };
        let ghost view = one@;
        spent.push(one);
        i += 1;
        assert(spent_views(spent@) =~= before.push(view));
        assert(spent_views(spent@) =~= spent_of(inputs@.take(i as int)));
    }
    assert(inputs@.take(inputs@.len() as int) =~= inputs@);
    Ok(spent)
}

/// The outputs as values and scripts, or the first fault of an output.
fn resolve_outputs(outputs: &Vec<TransactionOutput>, network: Network) -> (r: Result<
    Vec<PlainOutput>,
    TransactionError,
>)
    ensures
        match r {
            Ok(plain) => first_output_fault(outputs@, 0, network) is None && output_views(plain@)
                == outputs_of(outputs@, network),
            Err(e) => first_output_fault(outputs@, 0, network) == Some(e),
        },
{
    let mut plain: Vec<PlainOutput> = Vec::new();
    let mut i: usize = 0;
    assert(output_views(plain@) =~= outputs_of(outputs@.take(0), network));
    while i < outputs.len()
        invariant
            i <= outputs.len(),
            first_output_fault(outputs@, 0, network) == first_output_fault(
                outputs@,
                i as int,
                network,
            ),
            output_views(plain@) == outputs_of(outputs@.take(i as int), network),
        decreases outputs.len() - i,
    {
        let output = &outputs[i];
        let ghost before = output_views(plain@);
        let resolved = match &output.op_return {
            Some(script) => {
                if output.amount != 0 {
                    return Err(TransactionError::ScriptWithValue { output: i });
                }
                PlainOutput { value: 0, script: copy_bytes(script) }
            },
            None => match script_for_address(output.address.as_str(), network) {
                Ok(script) => PlainOutput { value: output.amount, script },
                Err(AddressFault::Malformed) => {
                    return Err(TransactionError::InvalidAddress { output: i });
                },
                Err(AddressFault::OtherNetwork) => {
                    return Err(TransactionError::NetworkMismatch { output: i });
                },
            },
        };
        assert(resolved@ == resolved_output(outputs@[i as int], network));
        plain.push(resolved);
        i += 1;
        assert(output_views(plain@) =~= before.push(resolved_output(outputs@[i - 1], network)));
        assert(output_views(plain@) =~= outputs_of(outputs@.take(i as int), network));
    }
    assert(outputs@.take(outputs@.len() as int) =~= outputs@);
    Ok(plain)
}

/// The outputs that the inputs spend, or the first fault of an input's address.
fn resolve_prevouts(inputs: &Vec<TransactionInput>, network: Network) -> (r: Result<
    Vec<PlainOutput>,
    TransactionError,
>)
    ensures
        match r {
            Ok(plain) => first_prevout_fault(inputs@, 0, network) is None && output_views(plain@)
                == prevouts_of(inputs@, network),
            Err(e) => first_prevout_fault(inputs@, 0, network) == Some(e),
        },
{
    let mut plain: Vec<PlainOutput> = Vec::new();
    let mut i: usize = 0;
    assert(output_views(plain@) =~= prevouts_of(inputs@.take(0), network));
    while i < inputs.len()
        invariant
            i <= inputs.len(),
            first_prevout_fault(inputs@, 0, network) == first_prevout_fault(
                inputs@,
                i as int,
                network,
            ),
            output_views(plain@) == prevouts_of(inputs@.take(i as int), network),
        decreases inputs.len() - i,
    {
        let input = &inputs[i];
        let ghost before = output_views(plain@);
        let script = match script_for_address(input.address.as_str(), network) {
            Ok(script) => script,
            Err(AddressFault::Malformed) => {
                return Err(TransactionError::InvalidInputAddress { input: i });
            },
            Err(AddressFault::OtherNetwork) => {
                return Err(TransactionError::InputNetworkMismatch { input: i });
            },
        };
        let spent = PlainOutput { value: input.amount, script };
        let ghost view = spent@;
        plain.push(spent);
        i += 1;
        assert(output_views(plain@) =~= before.push(view));
        assert(output_views(plain@) =~= prevouts_of(inputs@.take(i as int), network));
    }
    assert(inputs@.take(inputs@.len() as int) =~= inputs@);
    Ok(plain)
}

/// The witnesses that came with the inputs.
fn supplied_witnesses(inputs: &Vec<TransactionInput>) -> (items: Vec<Option<Vec<u8>>>)
    ensures
        items_view(items@) == supplied_of(inputs@),
{
    let mut items: Vec<Option<Vec<u8>>> = Vec::new();
    let mut i: usize = 0;
    assert(items_view(items@) =~= supplied_of(inputs@.take(0)));
    while i < inputs.len()
        invariant
            i <= inputs.len(),
            items_view(items@) == supplied_of(inputs@.take(i as int)),
        decreases inputs.len() - i,
    {
        let ghost before = items_view(items@);
        let item: Option<Vec<u8>> = match &inputs[i].witness {
            Some(w) => Some(copy_bytes(w)),
            None => None,
        };
        let ghost view = bytes_view(item);
        items.push(item);
        i += 1;
        assert(items_view(items@) =~= before.push(view));
        assert(items_view(items@) =~= supplied_of(inputs@.take(i as int)));
    }
    assert(inputs@.take(inputs@.len() as int) =~= inputs@);
    items
}

/// The hash to sign for each input that is signed here, or the first
/// such input that has none.
fn sighashes_for(tx: &bitcoin::Transaction, prevouts: &Vec<PlainOutput>, roles: &Vec<InputRole>) -> (r:
    Result<Vec<Option<Vec<u8>>>, TransactionError>)
    requires
        roles.len() == prevouts.len(),
    ensures
        match r {
            Ok(hashes) => {
                &&& first_hash_fault(
                    skeleton_header(*tx),
                    skeleton_inputs(*tx),
                    skeleton_outputs(*tx),
                    output_views(prevouts@),
                    roles@,
                    0,
                ) is None
                &&& hashes.len() == roles.len()
                &&& forall|i: int|
                    0 <= i < roles.len() ==> bytes_view(#[trigger] hashes[i]) == hash_for(
                        skeleton_header(*tx),
                        skeleton_inputs(*tx),
                        skeleton_outputs(*tx),
                        output_views(prevouts@),
                        roles[i],
                        i,
                    )
            },
            Err(e) => first_hash_fault(
                skeleton_header(*tx),
                skeleton_inputs(*tx),
                skeleton_outputs(*tx),
                output_views(prevouts@),
                roles@,
                0,
            ) matches Some(i) && e == (TransactionError::SighashUnavailable { input: i as usize }),
        },
{
    let ghost header = skeleton_header(*tx);
    let ghost spent = skeleton_inputs(*tx);
    let ghost outs = skeleton_outputs(*tx);
    let ghost prev = output_views(prevouts@);
    let mut hashes: Vec<Option<Vec<u8>>> = Vec::new();
    let mut i: usize = 0;
    while i < roles.len()
        invariant
            i <= roles.len(),
            roles.len() == prevouts.len(),
            header == skeleton_header(*tx),
            spent == skeleton_inputs(*tx),
            outs == skeleton_outputs(*tx),
            prev == output_views(prevouts@),
            hashes.len() == i,
            first_hash_fault(header, spent, outs, prev, roles@, 0) == first_hash_fault(
                header,
                spent,
                outs,
                prev,
                roles@,
                i as int,
            ),
            forall|j: int|
                0 <= j < i ==> bytes_view(#[trigger] hashes[j]) == hash_for(
                    header,
                    spent,
                    outs,
                    prev,
                    roles[j],
                    j,
                ),
        decreases roles.len() - i,
    {
        let hash: Option<Vec<u8>> = match roles[i] {
            InputRole::Sign { key, scope } => {
                let hash = sighash_for(tx, prevouts, i, scope);
                if hash.is_none() {
                    return Err(TransactionError::SighashUnavailable { input: i });
                }
                hash
            },
            _ => None,
        };
        hashes.push(hash);
        i += 1;
    }
    Ok(hashes)
}

/// What stops a transfer from being built, before any hash is computed:
/// no input, no output, not one role for each input, then the first fault
/// of an input, of an output, of an input's address.
pub open spec fn build_fault(
    network: Network,
    inputs: Seq<TransactionInput>,
    outputs: Seq<TransactionOutput>,
    role_count: int,
) -> Option<TransactionError> {
    if inputs.len() == 0 {
        Some(TransactionError::NoInputs)
    } else if outputs.len() == 0 {
        Some(TransactionError::NoOutputs)
    } else if role_count != inputs.len() {
        Some(TransactionError::RolesMismatch)
    } else if first_input_fault(inputs, 0) is Some {
        first_input_fault(inputs, 0)
    } else if first_output_fault(outputs, 0, network) is Some {
        first_output_fault(outputs, 0, network)
    } else {
        first_prevout_fault(inputs, 0, network)
    }
}

/// The version and the lock time of every transaction that is built
/// here: version 2, no lock time.
pub open spec fn standard_header() -> Seq<i64> {
    seq![2i64, 0i64]
}

/// The roles of the inputs by their position, as a list.
pub open spec fn roles_of(inputs: Seq<TransactionInput>, funding_inputs: int) -> Seq<InputRole> {
    Seq::new(
        inputs.len(),
        |i: int| role_of(i, inputs.len() as int, funding_inputs, inputs[i].witness is Some),
    )
}

/// The roles that the inputs themselves declare, as a list.
pub open spec fn declared_roles_of(inputs: Seq<TransactionInput>) -> Seq<InputRole> {
    Seq::new(
        inputs.len(),
        |i: int| declared_role(inputs[i].witness is Some, inputs[i].signature_type),
    )
}

/// Whether `r` is what building a transfer with these roles comes to:
/// the unsigned transaction of the inputs and outputs with the roles and,
/// for each input that is signed here, the hash to sign; or the first
/// fault, of which an input that is signed here and has no hash is the
/// last looked for.
pub open spec fn built(
    r: Result<UnsignedTransaction, TransactionError>,
    network: Network,
    inputs: Seq<TransactionInput>,
    outputs: Seq<TransactionOutput>,
    roles: Seq<InputRole>,
) -> bool {
    match r {
        Ok(u) => {
            &&& build_fault(network, inputs, outputs, roles.len() as int) is None
            &&& first_hash_fault(
                standard_header(),
                spent_of(inputs),
                outputs_of(outputs, network),
                prevouts_of(inputs, network),
                roles,
                0,
            ) is None
            &&& u.wf()
            &&& skeleton_header(u.tx) == standard_header()
            &&& skeleton_inputs(u.tx) == spent_of(inputs)
            &&& skeleton_outputs(u.tx) == outputs_of(outputs, network)
            &&& output_views(u.prevouts@) == prevouts_of(inputs, network)
            &&& u.roles@ == roles
            &&& items_view(u.supplied@) == supplied_of(inputs)
            &&& forall|i: int|
                0 <= i < inputs.len() ==> bytes_view(#[trigger] u.sighashes[i]) == hash_for(
                    standard_header(),
                    spent_of(inputs),
                    outputs_of(outputs, network),
                    prevouts_of(inputs, network),
                    roles[i],
                    i,
                )
        },
        Err(e) => match build_fault(network, inputs, outputs, roles.len() as int) {
            Some(fault) => e == fault,
            None => first_hash_fault(
                standard_header(),
                spent_of(inputs),
                outputs_of(outputs, network),
                prevouts_of(inputs, network),
                roles,
                0,
            ) is Some && e == (TransactionError::SighashUnavailable {
                input: first_hash_fault(
                    standard_header(),
                    spent_of(inputs),
                    outputs_of(outputs, network),
                    prevouts_of(inputs, network),
                    roles,
                    0,
                ).unwrap() as usize,
            }),
        },
    }
}

/// Builds the unsigned transaction of a transfer on `network`, of
/// `inputs` to `outputs`, with a role for each input. With it come, for
/// each input that is signed here, the hash to sign: it commits as far as
/// the role of the input says.
pub fn build_with_roles(
    network: Network,
    inputs: &Vec<TransactionInput>,
    outputs: &Vec<TransactionOutput>,
    roles: Vec<InputRole>,
) -> (r: Result<UnsignedTransaction, TransactionError>)
    ensures
        built(r, network, inputs@, outputs@, roles@),
{
    if inputs.len() == 0 {
        return Err(TransactionError::NoInputs);
    }
    if outputs.len() == 0 {
        return Err(TransactionError::NoOutputs);
    }
    if roles.len() != inputs.len() {
        return Err(TransactionError::RolesMismatch);
    }
    let spent = match resolve_inputs(inputs) {
        Ok(spent) => spent,
        Err(e) => {
            return Err(e);
        },
    };
    let plain = match resolve_outputs(outputs, network) {
        Ok(plain) => plain,
        Err(e) => {
            return Err(e);
        },
    };
    let prevouts = match resolve_prevouts(inputs, network) {
        Ok(prevouts) => prevouts,
        Err(e) => {
            return Err(e);
        },
    };
    let supplied = supplied_witnesses(inputs);
    let tx = make_skeleton(&spent, &plain);
    proof {
        assert(output_views(prevouts@).len() == inputs@.len());
        assert(items_view(supplied@).len() == inputs@.len());
        assert(spent_views(spent@).len() == inputs@.len());
    }
    let sighashes = match sighashes_for(&tx, &prevouts, &roles) {
        Ok(hashes) => hashes,
        Err(e) => {
            return Err(e);
        },
    };
    Ok(UnsignedTransaction { tx, prevouts, roles, supplied, sighashes })
}

/// Builds the unsigned transaction of a transfer whose inputs have their
/// roles by position: the last `funding_inputs` pay the fee, the first
/// input before them carries the assets, and another one keeps the witness
/// that came with it. More funding inputs than inputs are refused once
/// inputs and outputs are found to be there.
pub fn build_unsigned(
    network: Network,
    inputs: &Vec<TransactionInput>,
    outputs: &Vec<TransactionOutput>,
    funding_inputs: usize,
) -> (r: Result<UnsignedTransaction, TransactionError>)
    ensures
        if inputs.len() > 0 && outputs.len() > 0 && funding_inputs > inputs.len() {
            r == Err::<UnsignedTransaction, TransactionError>(
                TransactionError::TooManyFundingInputs,
            )
        } else {
            built(r, network, inputs@, outputs@, roles_of(inputs@, funding_inputs as int))
        },
{
    if inputs.len() == 0 {
        return Err(TransactionError::NoInputs);
    }
    if outputs.len() == 0 {
        return Err(TransactionError::NoOutputs);
    }
    if funding_inputs > inputs.len() {
        return Err(TransactionError::TooManyFundingInputs);
    }
    let roles = input_roles(inputs, funding_inputs);
    assert(roles@ =~= roles_of(inputs@, funding_inputs as int));
    build_with_roles(network, inputs, outputs, roles)
}

/// Builds the unsigned transaction of a transfer whose inputs declare
/// their roles themselves.
pub fn build_declared(
    network: Network,
    inputs: &Vec<TransactionInput>,
    outputs: &Vec<TransactionOutput>,
) -> (r: Result<UnsignedTransaction, TransactionError>)
    ensures
        built(r, network, inputs@, outputs@, declared_roles_of(inputs@)),
{
    let roles = declared_roles(inputs);
    assert(roles@ =~= declared_roles_of(inputs@));
    build_with_roles(network, inputs, outputs, roles)
}

/// The signature that was handed in for the input `index`, if any.
pub open spec fn signature_at(signatures: Seq<Option<Vec<u8>>>, index: int) -> Option<Seq<u8>> {
    if 0 <= index < signatures.len() {
        bytes_view(signatures[index])
    } else {
        None
    }
}

/// The final witness item of an input, inside `Some`: for an input that
/// is signed here its signature with the byte of its scope; for another
/// the witness that came with it, if any. `None` where the signature of
/// an input that is signed here is missing or has not 64 bytes.
pub open spec fn final_item(
    role: InputRole,
    supplied: Option<Seq<u8>>,
    signature: Option<Seq<u8>>,
) -> Option<Option<Seq<u8>>> {
    match role {
        InputRole::Sign { key, scope } => match signature {
            Some(s) => match signature_item(s, scope) {
                Some(item) => Some(Some(item)),
                None => None,
            },
            None => None,
        },
        InputRole::Supplied => Some(supplied),
        InputRole::Unsigned => Some(None),
    }
}

/// The first input from `from` on whose signature is missing or malformed.
pub open spec fn first_signature_fault(
    roles: Seq<InputRole>,
    supplied: Seq<Option<Vec<u8>>>,
    signatures: Seq<Option<Vec<u8>>>,
    from: int,
) -> Option<int>
    decreases roles.len() - from,
{
    if from < 0 || from >= roles.len() {
        None
    } else if final_item(roles[from], bytes_view(supplied[from]), signature_at(signatures, from))
        is None {
        Some(from)
    } else {
        first_signature_fault(roles, supplied, signatures, from + 1)
    }
}

/// The final witness item of every input.
pub open spec fn final_items(
    roles: Seq<InputRole>,
    supplied: Seq<Option<Vec<u8>>>,
    signatures: Seq<Option<Vec<u8>>>,
) -> Seq<Option<Seq<u8>>> {
    Seq::new(
        roles.len(),
        |i: int|
            final_item(roles[i], bytes_view(supplied[i]), signature_at(signatures, i)).unwrap(),
    )
}

/// The final witness item of every input, or the first input whose
/// signature is missing or malformed.
pub fn final_witnesses(
    roles: &Vec<InputRole>,
    supplied: &Vec<Option<Vec<u8>>>,
    signatures: &Vec<Option<Vec<u8>>>,
) -> (r: Result<Vec<Option<Vec<u8>>>, TransactionError>)
    requires
        supplied.len() == roles.len(),
    ensures
        match r {
            Ok(items) => first_signature_fault(roles@, supplied@, signatures@, 0) is None
                && items_view(items@) == final_items(roles@, supplied@, signatures@),
            Err(e) => first_signature_fault(roles@, supplied@, signatures@, 0) matches Some(i) && e
                == (TransactionError::SignatureFormatError { input: i as usize }),
        },
{
    let mut items: Vec<Option<Vec<u8>>> = Vec::new();
    let mut i: usize = 0;
    while i < roles.len()
        invariant
            i <= roles.len(),
            supplied.len() == roles.len(),
            items.len() == i,
            first_signature_fault(roles@, supplied@, signatures@, 0) == first_signature_fault(
                roles@,
                supplied@,
                signatures@,
                i as int,
            ),
            forall|j: int|
                0 <= j < i ==> Some(bytes_view(#[trigger] items[j])) == final_item(
                    roles[j],
                    bytes_view(supplied[j]),
                    signature_at(signatures@, j),
                ),
        decreases roles.len() - i,
    {
        let item: Option<Vec<u8>> = match roles[i] {
            InputRole::Sign { key, scope } => {
                if i >= signatures.len() {
                    return Err(TransactionError::SignatureFormatError { input: i });
                }
                match &signatures[i] {
                    Some(signature) => match taproot_signature_item(signature.as_slice(), scope) {
                        Some(item) => Some(item),
                        None => {
                            return Err(TransactionError::SignatureFormatError { input: i });
                        },
                    },
                    None => {
                        return Err(TransactionError::SignatureFormatError { input: i });
                    },
                }
            },
            InputRole::Supplied => match &supplied[i] {
                Some(w) => Some(copy_bytes(w)),
                None => None,
            },
            InputRole::Unsigned => None,
        };
        items.push(item);
        i += 1;
    }
    assert(items_view(items@) =~= final_items(roles@, supplied@, signatures@));
    Ok(items)
}

/// Finishes a transaction with the signatures for its inputs,
/// `signatures[i]` for the input `i`. Each input that is signed here gets
/// its signature as its only witness item, with the byte of its scope. The
/// result names the transaction and holds it, in the format of partially
/// signed transactions, in hexadecimal and base64, with its virtual size.
/// Fails at the first signature that is missing or has not 64 bytes, and
/// else exactly where no transaction can be extracted from the parts.
pub fn finalize(u: &UnsignedTransaction, signatures: &Vec<Option<Vec<u8>>>) -> (r: Result<
    TransactionResult,
    TransactionError,
>)
    requires
        u.wf(),
    ensures
        r is Ok <==> first_signature_fault(u.roles@, u.supplied@, signatures@, 0) is None
            && extracts(
            u.tx,
            output_views(u.prevouts@),
            final_items(u.roles@, u.supplied@, signatures@),
        ),
        match r {
            Ok(done) => {
                let witnesses = final_items(u.roles@, u.supplied@, signatures@);
                let header = skeleton_header(u.tx);
                let inputs = skeleton_inputs(u.tx);
                let outputs = skeleton_outputs(u.tx);
                let prevouts = output_views(u.prevouts@);
                &&& first_signature_fault(u.roles@, u.supplied@, signatures@, 0) is None
                &&& done.txid@ == txid_text(header, inputs, outputs)
                &&& done.psbt_hex@ == hex_text(
                    serialized_psbt(header, inputs, outputs, prevouts, witnesses),
                )
                &&& done.psbt_base64@ == base64_encoded(
                    serialized_psbt(header, inputs, outputs, prevouts, witnesses),
                )
                &&& done.vsize == signed_vsize(header, inputs, outputs, witnesses)
            },
            Err(e) => match first_signature_fault(u.roles@, u.supplied@, signatures@, 0) {
                Some(i) => e == (TransactionError::SignatureFormatError { input: i as usize }),
                None => e == TransactionError::AssemblyFailed,
            },
        },
{
    let witnesses = match final_witnesses(&u.roles, &u.supplied, signatures) {
        Ok(items) => items,
        Err(e) => {
            return Err(e);
        },
    };
    assert(items_view(witnesses@).len() == u.roles.len());
    report(finish_psbt(&u.tx, &u.prevouts, &witnesses))
}

/// What is reported of a finished transaction: its identifier, its bytes
/// in hexadecimal and in base64, and its virtual size; a failure where it
/// was not finished.
pub fn report(finished: Option<(String, Vec<u8>, u64)>) -> (r: Result<
    TransactionResult,
    TransactionError,
>)
    ensures
        match (finished, r) {
            (Some(parts), Ok(done)) => done.txid@ == parts.0@ && done.psbt_hex@ == hex_text(
                parts.1@,
            ) && done.psbt_base64@ == base64_encoded(parts.1@) && done.vsize == parts.2,
            (None, Err(e)) => e == TransactionError::AssemblyFailed,
            _ => false,
        },
{
    match finished {
        Some((txid, bytes, vsize)) => {
            let psbt_base64 = base64_encode(&bytes);
            let psbt_hex = hex_encode(&bytes);
            Ok(TransactionResult { txid, psbt_base64, psbt_hex, vsize })
        },
        None => Err(TransactionError::AssemblyFailed),
    }
}

/// How many of the first `n` inputs are signed here.
pub open spec fn needed_count(roles: Seq<InputRole>, n: nat) -> nat
    decreases n,
{
    if n == 0 {
        0
    } else {
        needed_count(roles, (n - 1) as nat) + if roles[n - 1] is Sign {
            1nat
        } else {
            0nat
        }
    }
}

/// How many of the first `n` inputs are signed here and have their signature.
pub open spec fn signed_count(roles: Seq<InputRole>, signatures: Seq<Option<Vec<u8>>>, n: nat) -> nat
    decreases n,
{
    if n == 0 {
        0
    } else {
        signed_count(roles, signatures, (n - 1) as nat) + if roles[n - 1] is Sign
            && signature_at(signatures, n - 1) is Some {
            1nat
        } else {
            0nat
        }
    }
}

/// The stage of a built transaction with the signatures that are in.
pub open spec fn stage_of(roles: Seq<InputRole>, signatures: Seq<Option<Vec<u8>>>) -> Stage {
    let signed = signed_count(roles, signatures, roles.len());
    if signed == needed_count(roles, roles.len()) {
        Stage::Finalized
    } else if signed == 0 {
        Stage::Unsigned
    } else {
        Stage::PartiallySigned
    }
}

/// The stage of a built transaction with the signatures that are in.
pub fn stage(u: &UnsignedTransaction, signatures: &Vec<Option<Vec<u8>>>) -> (s: Stage)
    ensures
        s == stage_of(u.roles@, signatures@),
{
    let mut needed: usize = 0;
    let mut signed: usize = 0;
    let mut i: usize = 0;
    while i < u.roles.len()
        invariant
            i <= u.roles.len(),
            needed == needed_count(u.roles@, i as nat),
            signed == signed_count(u.roles@, signatures@, i as nat),
            signed <= needed <= i,
        decreases u.roles.len() - i,
    {
        if let InputRole::Sign { key, scope } = u.roles[i] {
            needed += 1;
            if i < signatures.len() && signatures[i].is_some() {
                signed += 1;
            }
        }
        i += 1;
    }
    if signed == needed {
        Stage::Finalized
    } else if signed == 0 {
        Stage::Unsigned
    } else {
        Stage::PartiallySigned
    }
}

/// No signature for any input.
pub fn no_signatures(u: &UnsignedTransaction) -> (signatures: Vec<Option<Vec<u8>>>)
    ensures
        signatures.len() == u.roles.len(),
        forall|i: int| 0 <= i < signatures.len() ==> #[trigger] signatures[i] is None,
{
    let mut signatures: Vec<Option<Vec<u8>>> = Vec::new();
    let mut i: usize = 0;
    while i < u.roles.len()
        invariant
            i <= u.roles.len(),
            signatures.len() == i,
            forall|j: int| 0 <= j < i ==> #[trigger] signatures[j] is None,
        decreases u.roles.len() - i,
    {
        signatures.push(None);
        i += 1;
    }
    signatures
}

/// Whether a signature can be attached to the input `input`: the input
/// is signed here, and the signature has 64 bytes.
pub open spec fn attachable(roles: Seq<InputRole>, input: int, signature: Seq<u8>) -> bool {
    0 <= input < roles.len() && roles[input] is Sign && signature.len() == 64
}

/// Attaches the signature for one input. Where it cannot be attached
/// nothing changes.
pub fn attach_signature(
    u: &UnsignedTransaction,
    signatures: &mut Vec<Option<Vec<u8>>>,
    input: usize,
    signature: Vec<u8>,
) -> (r: Result<(), TransactionError>)
    requires
        old(signatures).len() == u.roles.len(),
    ensures
        match r {
            Ok(()) => attachable(u.roles@, input as int, signature@) && final(signatures)@ == old(
                signatures,
            )@.update(input as int, Some(signature)),
            Err(e) => !attachable(u.roles@, input as int, signature@) && final(signatures)@ == old(
                signatures,
            )@ && e == (TransactionError::SignatureFormatError { input }),
        },
{
    if input >= u.roles.len() || signature.len() != 64 {
        return Err(TransactionError::SignatureFormatError { input });
    }
    match u.roles[input] {
        InputRole::Sign { key, scope } => {
            signatures.set(input, Some(signature));
            Ok(())
        },
        _ => Err(TransactionError::SignatureFormatError { input }),
    }
}

/// A signature more does not lower the number of signed inputs.
proof fn lemma_signed_count_grows(
    roles: Seq<InputRole>,
    signatures: Seq<Option<Vec<u8>>>,
    input: int,
    signature: Vec<u8>,
    n: nat,
)
    requires
        0 <= input < signatures.len(),
        n <= roles.len(),
    ensures
        signed_count(roles, signatures, n) <= signed_count(
            roles,
            signatures.update(input, Some(signature)),
            n,
        ) <= needed_count(roles, n),
    decreases n,
{
    if n > 0 {
        lemma_signed_count_grows(roles, signatures, input, signature, (n - 1) as nat);
    }
}

/// The assembly never goes back: with a signature more the stage is the
/// same or a later one.
pub proof fn lemma_stage_never_goes_back(
    roles: Seq<InputRole>,
    signatures: Seq<Option<Vec<u8>>>,
    input: int,
    signature: Vec<u8>,
)
    requires
        0 <= input < signatures.len(),
    ensures
        stage_of(roles, signatures.update(input, Some(signature))).rank() >= stage_of(
            roles,
            signatures,
        ).rank(),
        stage_of(roles, signatures).rank() >= Stage::Unsigned.rank(),
{
    lemma_signed_count_grows(roles, signatures, input, signature, roles.len());
}

} // verus!
