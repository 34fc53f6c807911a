use alkanes_transfer::assembler::{
    attach_signature, build_declared, build_unsigned, build_with_roles, final_witnesses,
    finalize, no_signatures, report, stage, INPUT_SEQUENCE,
};
use alkanes_transfer::psbt_text::{
    combine_psbt, is_hex_text, sources_can_merge, CombineError, KeySource,
};
use alkanes_transfer::transaction::{
    check_shape, declared_roles, get_derivation_path, input_roles, network_named,
    parse_network, InputRole,
    InputSignatureType, KeyRole, Network, Stage, TransactionError, TransactionInput,
    TransactionOutput,
};
use bitcoin::sighash::{Prevouts, SighashCache};
use bitcoin::{Amount, Psbt, ScriptBuf, TapSighashType, TxOut, Witness};

const TXID_A: &str = "1111111111111111111111111111111111111111111111111111111111111111";
const TXID_B: &str = "00000000000000000000000000000000000000000000000000000000000000ab";

fn taproot_script(seed: u8) -> Vec<u8> {
    let mut script = vec![0x51, 0x20];
    script.extend([seed; 32]);
    script
}

fn address_on(network: bitcoin::Network, seed: u8) -> String {
    bitcoin::Address::from_script(&ScriptBuf::from_bytes(taproot_script(seed)), network)
        .unwrap()
        .to_string()
}

fn address(seed: u8) -> String {
    address_on(bitcoin::Network::Testnet, seed)
}

fn input(txid: &str, vout: u32, amount: u64, seed: u8) -> TransactionInput {
    TransactionInput {
        txid: txid.to_string(),
        vout,
        amount,
        address: address(seed),
        public_key: None,
        signature_type: Some(InputSignatureType::All),
        witness: None,
    }
}

fn payment(amount: u64, seed: u8) -> TransactionOutput {
    TransactionOutput { address: address(seed), amount, op_return: None }
}

fn carrier(script: Vec<u8>) -> TransactionOutput {
    TransactionOutput { address: address(9), amount: 0, op_return: Some(script) }
}

fn sample_inputs() -> Vec<TransactionInput> {
    let mut witnessed = input(TXID_B, 1, 600, 2);
    witnessed.witness = Some(vec![0xaa; 65]);
    vec![input(TXID_A, 0, 330, 1), witnessed, input(TXID_A, 2, 50_000, 3)]
}

fn sample_outputs() -> Vec<TransactionOutput> {
    vec![payment(330, 4), payment(330, 5), carrier(vec![0x6a, 0x5d, 0x01, 0x07])]
}

fn spent(inputs: &[TransactionInput]) -> Vec<TxOut> {
    inputs
        .iter()
        .map(|i| TxOut {
            value: Amount::from_sat(i.amount),
            script_pubkey: i.address.parse::<bitcoin::Address<_>>().unwrap().assume_checked().script_pubkey(),
        })
        .collect()
}

#[test]
fn network_names() {
    assert_eq!(parse_network("mainnet"), Ok(Network::Bitcoin));
    assert_eq!(parse_network("testnet"), Ok(Network::Testnet));
    assert_eq!(parse_network("signet"), Ok(Network::Signet));
    assert_eq!(parse_network("regtest"), Ok(Network::Regtest));
    assert_eq!(network_named("signet"), Some(Network::Signet));
}

#[test]
fn network_names_in_any_case() {
    assert_eq!(parse_network("MainNet"), Ok(Network::Bitcoin));
    assert_eq!(parse_network("TESTNET"), Ok(Network::Testnet));
    assert_eq!(network_named("Mainnet"), None);
}

#[test]
fn unknown_network_names() {
    for name in ["", "bitcoin", "mainnet ", "testnet4", "main", "signets"] {
        assert_eq!(parse_network(name), Err(TransactionError::InvalidNetwork));
    }
}

#[test]
fn shape_needs_inputs_and_outputs() {
    assert_eq!(check_shape(&vec![], &sample_outputs(), 0), Err(TransactionError::NoInputs));
    assert_eq!(check_shape(&vec![], &vec![], 0), Err(TransactionError::NoInputs));
    assert_eq!(check_shape(&sample_inputs(), &vec![], 0), Err(TransactionError::NoOutputs));
    assert_eq!(check_shape(&sample_inputs(), &sample_outputs(), 1), Ok(()));
}

#[test]
fn shape_refuses_a_script_with_a_value() {
    let mut outputs = sample_outputs();
    outputs[2].amount = 1;
    outputs.push(TransactionOutput { address: address(1), amount: 5, op_return: Some(vec![0x6a]) });
    assert_eq!(
        check_shape(&sample_inputs(), &outputs, 0),
        Err(TransactionError::ScriptWithValue { output: 2 })
    );
}

#[test]
fn shape_lets_dust_pass() {
    let outputs = vec![payment(1, 4)];
    assert_eq!(check_shape(&sample_inputs(), &outputs, 0), Ok(()));
}

#[test]
fn shape_refuses_more_funding_inputs_than_inputs() {
    assert_eq!(check_shape(&sample_inputs(), &sample_outputs(), 3), Ok(()));
    assert_eq!(
        check_shape(&sample_inputs(), &sample_outputs(), 4),
        Err(TransactionError::TooManyFundingInputs)
    );
}

#[test]
fn roles_by_position() {
    let custody = custody();
    let funding = fee_payer();
    assert_eq!(input_roles(&sample_inputs(), 1), vec![custody, InputRole::Supplied, funding]);
    assert_eq!(input_roles(&sample_inputs(), 0), vec![custody, InputRole::Supplied, InputRole::Unsigned]);
    assert_eq!(input_roles(&sample_inputs(), 2), vec![custody, funding, funding]);
    assert_eq!(input_roles(&sample_inputs(), 3), vec![funding, funding, funding]);
}

fn custody() -> InputRole {
    InputRole::Sign { key: KeyRole::AssetCustody, scope: InputSignatureType::All }
}

fn fee_payer() -> InputRole {
    InputRole::Sign { key: KeyRole::FeeCustody, scope: InputSignatureType::AllPlusAnyoneCanPay }
}

#[test]
fn witness_of_a_signature() {
    let signature = vec![0x42u8; 64];
    let mut all = signature.clone();
    all.push(0x01);
    let mut anyone = signature.clone();
    anyone.push(0x81);
    let items = final_witnesses(
        &vec![custody(), fee_payer()],
        &vec![None, None],
        &vec![Some(signature.clone()), Some(signature)],
    );
    assert_eq!(items, Ok(vec![Some(all), Some(anyone)]));
}

#[test]
fn witness_of_a_malformed_signature() {
    for signature in [vec![0u8; 63], vec![0u8; 65], vec![]] {
        assert_eq!(
            final_witnesses(&vec![custody()], &vec![None], &vec![Some(signature)]),
            Err(TransactionError::SignatureFormatError { input: 0 })
        );
    }
    assert_eq!(
        final_witnesses(&vec![fee_payer()], &vec![Some(vec![1, 2, 3])], &vec![None]),
        Err(TransactionError::SignatureFormatError { input: 0 })
    );
}

#[test]
fn witness_of_inputs_that_are_not_signed_here() {
    let items = final_witnesses(
        &vec![InputRole::Supplied, InputRole::Supplied, InputRole::Unsigned],
        &vec![Some(vec![9, 9]), None, Some(vec![7])],
        &vec![Some(vec![0u8; 64]), None, None],
    );
    assert_eq!(items, Ok(vec![Some(vec![9, 9]), None, None]));
}

#[test]
fn build_gives_the_unsigned_transaction() {
    let inputs = sample_inputs();
    let u = build_unsigned(Network::Testnet, &inputs, &sample_outputs(), 1).unwrap();
    assert_eq!(u.tx.input.len(), 3);
    assert_eq!(u.tx.output.len(), 3);
    assert_eq!(u.tx.input[0].previous_output.txid.to_string(), TXID_A);
    assert_eq!(u.tx.input[1].previous_output.txid.to_string(), TXID_B);
    assert_eq!(u.tx.input[1].previous_output.vout, 1);
    assert_eq!(u.tx.input[2].previous_output.vout, 2);
    assert!(u.tx.input.iter().all(|i| i.script_sig.is_empty() && i.witness.is_empty()));
    assert!(u.tx.input.iter().all(|i| i.sequence.0 == INPUT_SEQUENCE));
    assert_eq!(u.tx.version, bitcoin::transaction::Version::TWO);
    assert_eq!(u.tx.lock_time, bitcoin::absolute::LockTime::ZERO);
    assert_eq!(u.tx.output[0].value, Amount::from_sat(330));
    assert_eq!(u.tx.output[0].script_pubkey.as_bytes(), &taproot_script(4)[..]);
    assert_eq!(u.tx.output[1].script_pubkey.as_bytes(), &taproot_script(5)[..]);
    assert_eq!(u.tx.output[2].value, Amount::from_sat(0));
    assert_eq!(u.tx.output[2].script_pubkey.as_bytes(), &[0x6a, 0x5d, 0x01, 0x07]);
    assert_eq!(u.prevouts.len(), 3);
    assert_eq!(u.prevouts[2].value, 50_000);
    assert_eq!(u.prevouts[2].script, taproot_script(3));
    assert_eq!(u.roles, input_roles(&inputs, 1));
    assert_eq!(u.supplied, vec![None, Some(vec![0xaa; 65]), None]);
}

#[test]
fn build_gives_the_hashes_to_sign() {
    let inputs = sample_inputs();
    let u = build_unsigned(Network::Testnet, &inputs, &sample_outputs(), 1).unwrap();
    let prevouts = spent(&inputs);
    let mut cache = SighashCache::new(&u.tx);
    let all = cache
        .taproot_key_spend_signature_hash(0, &Prevouts::All(&prevouts), TapSighashType::All)
        .unwrap();
    let anyone = cache
        .taproot_key_spend_signature_hash(
            2,
            &Prevouts::One(2, &prevouts[2]),
            TapSighashType::AllPlusAnyoneCanPay,
        )
        .unwrap();
    assert_eq!(u.sighashes.len(), 3);
    assert_eq!(u.sighashes[0], Some(bitcoin::hashes::Hash::to_byte_array(all).to_vec()));
    assert_eq!(u.sighashes[1], None);
    assert_eq!(u.sighashes[2], Some(bitcoin::hashes::Hash::to_byte_array(anyone).to_vec()));
    assert_ne!(u.sighashes[0], u.sighashes[2]);
}

#[test]
fn build_faults_in_their_order() {
    let good = sample_inputs();
    let outs = sample_outputs();
    assert_eq!(build_unsigned(Network::Testnet, &vec![], &outs, 0).err(), Some(TransactionError::NoInputs));
    assert_eq!(build_unsigned(Network::Testnet, &good, &vec![], 0).err(), Some(TransactionError::NoOutputs));
    assert_eq!(
        build_unsigned(Network::Testnet, &good, &outs, 4).err(),
        Some(TransactionError::TooManyFundingInputs)
    );
    let mut bad_txid = sample_inputs();
    bad_txid[1].txid = "abc".to_string();
    bad_txid[2].public_key = Some("zz".to_string());
    assert_eq!(
        build_unsigned(Network::Testnet, &bad_txid, &outs, 0).err(),
        Some(TransactionError::InvalidTxid { input: 1 })
    );
    let mut bad_key = sample_inputs();
    bad_key[0].public_key = Some("02ab".to_string());
    bad_key[2].public_key = Some("02abc".to_string());
    let mut bad_outs = sample_outputs();
    bad_outs[0].address = "nonsense".to_string();
    assert_eq!(
        build_unsigned(Network::Testnet, &bad_key, &bad_outs, 0).err(),
        Some(TransactionError::InvalidPublicKey { input: 2 })
    );
    assert_eq!(
        build_unsigned(Network::Testnet, &good, &bad_outs, 0).err(),
        Some(TransactionError::InvalidAddress { output: 0 })
    );
}

#[test]
fn build_refuses_a_script_with_a_value() {
    let mut outs = sample_outputs();
    outs[2].amount = 330;
    assert_eq!(
        build_unsigned(Network::Testnet, &sample_inputs(), &outs, 0).err(),
        Some(TransactionError::ScriptWithValue { output: 2 })
    );
}

#[test]
fn build_ignores_the_address_of_a_carrier_output() {
    let mut outs = sample_outputs();
    outs[2].address = String::new();
    assert!(build_unsigned(Network::Testnet, &sample_inputs(), &outs, 0).is_ok());
}

#[test]
fn build_refuses_addresses_of_another_network() {
    let mut outs = sample_outputs();
    outs[1].address = address_on(bitcoin::Network::Bitcoin, 5);
    assert_eq!(
        build_unsigned(Network::Testnet, &sample_inputs(), &outs, 0).err(),
        Some(TransactionError::NetworkMismatch { output: 1 })
    );
    let mut ins = sample_inputs();
    ins[2].address = address_on(bitcoin::Network::Bitcoin, 3);
    assert_eq!(
        build_unsigned(Network::Testnet, &ins, &sample_outputs(), 0).err(),
        Some(TransactionError::InputNetworkMismatch { input: 2 })
    );
    ins[0].address = "tb1pnonsense".to_string();
    assert_eq!(
        build_unsigned(Network::Testnet, &ins, &sample_outputs(), 0).err(),
        Some(TransactionError::InvalidInputAddress { input: 0 })
    );
    assert!(build_unsigned(Network::Bitcoin, &sample_inputs(), &sample_outputs(), 0).is_err());
}

fn signatures() -> Vec<Option<Vec<u8>>> {
    vec![Some(vec![0x11; 64]), None, Some(vec![0x33; 64])]
}

#[test]
fn final_witnesses_by_role() {
    let u = build_unsigned(Network::Testnet, &sample_inputs(), &sample_outputs(), 1).unwrap();
    let items = final_witnesses(&u.roles, &u.supplied, &signatures()).unwrap();
    let mut first = vec![0x11; 64];
    first.push(0x01);
    let mut last = vec![0x33; 64];
    last.push(0x81);
    assert_eq!(items, vec![Some(first), Some(vec![0xaa; 65]), Some(last)]);
}

#[test]
fn finalize_reports_the_transaction() {
    let u = build_unsigned(Network::Testnet, &sample_inputs(), &sample_outputs(), 1).unwrap();
    let done = finalize(&u, &signatures()).unwrap();
    assert_eq!(done.txid, u.tx.compute_txid().to_string());
    let bytes = hex::decode(&done.psbt_hex).unwrap();
    assert_eq!(done.psbt_hex, hex::encode(&bytes));
    #[allow(deprecated)]
    let from_base64 = base64::decode(&done.psbt_base64).unwrap();
    assert_eq!(from_base64, bytes);
    let psbt = Psbt::deserialize(&bytes).unwrap();
    assert_eq!(psbt.unsigned_tx, u.tx);
    let mut first = vec![0x11; 64];
    first.push(0x01);
    let mut last = vec![0x33; 64];
    last.push(0x81);
    assert_eq!(psbt.inputs[0].final_script_witness, Some(Witness::from_slice(&[first])));
    assert_eq!(psbt.inputs[1].final_script_witness, Some(Witness::from_slice(&[vec![0xaa; 65]])));
    assert_eq!(psbt.inputs[2].final_script_witness, Some(Witness::from_slice(&[last])));
    assert_eq!(psbt.inputs[2].witness_utxo.as_ref().unwrap().value, Amount::from_sat(50_000));
    let tx = psbt.extract_tx().unwrap();
    assert_eq!(done.vsize, tx.vsize() as u64);
    assert!(done.vsize > 0);
}

#[test]
fn finalize_fails_at_the_first_bad_signature() {
    let u = build_unsigned(Network::Testnet, &sample_inputs(), &sample_outputs(), 1).unwrap();
    let mut sigs = signatures();
    sigs[2] = Some(vec![0x33; 63]);
    assert_eq!(finalize(&u, &sigs).err(), Some(TransactionError::SignatureFormatError { input: 2 }));
    sigs[0] = None;
    assert_eq!(finalize(&u, &sigs).err(), Some(TransactionError::SignatureFormatError { input: 0 }));
    assert_eq!(
        finalize(&u, &vec![Some(vec![0x11; 64])]).err(),
        Some(TransactionError::SignatureFormatError { input: 2 })
    );
}

#[test]
fn finalize_fails_where_outputs_exceed_inputs() {
    let outs = vec![payment(60_000, 4)];
    let u = build_unsigned(Network::Testnet, &sample_inputs(), &outs, 1).unwrap();
    assert_eq!(finalize(&u, &signatures()).err(), Some(TransactionError::AssemblyFailed));
}

#[test]
fn report_of_what_was_finished() {
    let done = report(Some(("id".to_string(), vec![0x00, 0xab, 0xff], 77))).unwrap();
    assert_eq!(done.txid, "id");
    assert_eq!(done.psbt_hex, "00abff");
    assert_eq!(done.psbt_base64, "AKv/");
    assert_eq!(done.vsize, 77);
    assert_eq!(report(None).err(), Some(TransactionError::AssemblyFailed));
}

#[test]
fn stages_follow_the_signatures() {
    let u = build_unsigned(Network::Testnet, &sample_inputs(), &sample_outputs(), 1).unwrap();
    let mut sigs = no_signatures(&u);
    assert_eq!(sigs, vec![None, None, None]);
    assert_eq!(stage(&u, &sigs), Stage::Unsigned);
    assert_eq!(attach_signature(&u, &mut sigs, 2, vec![0x33; 64]), Ok(()));
    assert_eq!(stage(&u, &sigs), Stage::PartiallySigned);
    assert_eq!(attach_signature(&u, &mut sigs, 0, vec![0x11; 64]), Ok(()));
    assert_eq!(stage(&u, &sigs), Stage::Finalized);
    assert_eq!(sigs, signatures());
    assert!(finalize(&u, &sigs).is_ok());
}

#[test]
fn signatures_attach_only_where_they_belong() {
    let u = build_unsigned(Network::Testnet, &sample_inputs(), &sample_outputs(), 1).unwrap();
    let mut sigs = no_signatures(&u);
    for (index, signature) in [(1usize, vec![0u8; 64]), (3, vec![0u8; 64]), (0, vec![0u8; 65]), (0, vec![])] {
        assert_eq!(
            attach_signature(&u, &mut sigs, index, signature),
            Err(TransactionError::SignatureFormatError { input: index })
        );
    }
    assert_eq!(sigs, vec![None, None, None]);
    assert_eq!(stage(&u, &sigs), Stage::Unsigned);
}

#[test]
fn hex_text_is_told_by_its_digits() {
    assert!(is_hex_text("0123456789abcdefABCDEF"));
    assert!(is_hex_text(""));
    assert!(!is_hex_text("cHNidP8="));
    assert!(!is_hex_text("12 34"));
    assert!(!is_hex_text("１2"));
}

fn two_psbts() -> (Psbt, Psbt) {
    let u = build_unsigned(Network::Testnet, &sample_inputs(), &sample_outputs(), 1).unwrap();
    let mut a = Psbt::from_unsigned_tx(u.tx.clone()).unwrap();
    let mut b = Psbt::from_unsigned_tx(u.tx.clone()).unwrap();
    a.inputs[0].final_script_witness = Some(Witness::from_slice(&[vec![1u8; 65]]));
    b.inputs[2].final_script_witness = Some(Witness::from_slice(&[vec![2u8; 65]]));
    (a, b)
}

#[test]
fn combine_merges_hex_and_base64() {
    let (a, b) = two_psbts();
    #[allow(deprecated)]
    let b_text = base64::encode(b.serialize());
    let merged = combine_psbt(&hex::encode(a.serialize()), &b_text).unwrap();
    #[allow(deprecated)]
    let psbt = Psbt::deserialize(&base64::decode(&merged).unwrap()).unwrap();
    assert_eq!(psbt.inputs[0].final_script_witness, Some(Witness::from_slice(&[vec![1u8; 65]])));
    assert_eq!(psbt.inputs[1].final_script_witness, None);
    assert_eq!(psbt.inputs[2].final_script_witness, Some(Witness::from_slice(&[vec![2u8; 65]])));
    let mut expected = a.clone();
    expected.combine(b).unwrap();
    assert_eq!(psbt, expected);
}

#[test]
fn combine_refuses_different_transactions() {
    let (a, _) = two_psbts();
    let other = build_unsigned(Network::Testnet, &sample_inputs(), &vec![payment(1, 1)], 0).unwrap();
    let b = Psbt::from_unsigned_tx(other.tx).unwrap();
    assert_eq!(
        combine_psbt(&hex::encode(a.serialize()), &hex::encode(b.serialize())),
        Err(CombineError::IncompatibleSkeleton)
    );
}

#[test]
fn combine_names_the_text_that_cannot_be_read() {
    let (a, _) = two_psbts();
    let good = hex::encode(a.serialize());
    assert_eq!(combine_psbt("abc", &good), Err(CombineError::HexFirst));
    assert_eq!(combine_psbt("not base64!", &good), Err(CombineError::Base64First));
    assert_eq!(combine_psbt(&good, "abc"), Err(CombineError::HexSecond));
    assert_eq!(combine_psbt(&good, "not base64!"), Err(CombineError::Base64Second));
    assert_eq!(combine_psbt("abc", "not base64!"), Err(CombineError::HexFirst));
}

#[test]
fn combine_names_the_bytes_that_are_no_transaction() {
    let (a, _) = two_psbts();
    let good = hex::encode(a.serialize());
    assert_eq!(combine_psbt("00ff", &good), Err(CombineError::DeserializeFirst));
    assert_eq!(combine_psbt("", &good), Err(CombineError::DeserializeFirst));
    assert_eq!(combine_psbt(&good, "00ff"), Err(CombineError::DeserializeSecond));
    assert_eq!(combine_psbt("00ff", "00ff"), Err(CombineError::DeserializeFirst));
}

#[test]
fn derivation_path_is_the_name_of_the_key() {
    assert_eq!(get_derivation_path("fomowell-btc-address"), vec![b"fomowell-btc-address".to_vec()]);
    assert_eq!(get_derivation_path(""), vec![Vec::<u8>::new()]);
}

#[test]
fn roles_as_the_inputs_declare_them() {
    let mut inputs = sample_inputs();
    inputs[2].signature_type = Some(InputSignatureType::AllPlusAnyoneCanPay);
    inputs.push(input(TXID_B, 7, 10, 4));
    inputs[3].signature_type = None;
    assert_eq!(
        declared_roles(&inputs),
        vec![custody(), InputRole::Supplied, fee_payer(), InputRole::Unsigned]
    );
}

#[test]
fn build_by_declared_roles_signs_every_asset_input() {
    let mut inputs = sample_inputs();
    inputs[1].witness = None;
    inputs[2].signature_type = Some(InputSignatureType::AllPlusAnyoneCanPay);
    let u = build_declared(Network::Testnet, &inputs, &sample_outputs()).unwrap();
    assert_eq!(u.roles, vec![custody(), custody(), fee_payer()]);
    assert!(u.sighashes.iter().all(|h| h.as_ref().map(|h| h.len()) == Some(32)));
    let prevouts = spent(&inputs);
    let mut cache = SighashCache::new(&u.tx);
    let second = cache
        .taproot_key_spend_signature_hash(1, &Prevouts::All(&prevouts), TapSighashType::All)
        .unwrap();
    assert_eq!(u.sighashes[1], Some(bitcoin::hashes::Hash::to_byte_array(second).to_vec()));
}

#[test]
fn build_with_roles_needs_a_role_for_each_input() {
    let r = build_with_roles(Network::Testnet, &sample_inputs(), &sample_outputs(), vec![custody()]);
    assert_eq!(r.err(), Some(TransactionError::RolesMismatch));
    let none = build_with_roles(Network::Testnet, &vec![], &sample_outputs(), vec![]);
    assert_eq!(none.err(), Some(TransactionError::NoInputs));
    let unsigned = build_with_roles(
        Network::Testnet,
        &sample_inputs(),
        &sample_outputs(),
        vec![InputRole::Unsigned, InputRole::Supplied, InputRole::Unsigned],
    )
    .unwrap();
    assert_eq!(unsigned.sighashes, vec![None, None, None]);
    assert_eq!(stage(&unsigned, &no_signatures(&unsigned)), Stage::Finalized);
}

#[test]
fn combine_reads_hex_in_either_case() {
    let (a, b) = two_psbts();
    let upper = hex::encode(a.serialize()).to_uppercase();
    let merged = combine_psbt(&upper, &hex::encode(b.serialize())).unwrap();
    let mut expected = a.clone();
    expected.combine(b).unwrap();
    #[allow(deprecated)]
    let bytes = base64::decode(&merged).unwrap();
    assert_eq!(Psbt::deserialize(&bytes).unwrap(), expected);
}

#[test]
fn txid_is_64_hex_digits_read_backwards() {
    let mut inputs = sample_inputs();
    inputs[0].txid = "00000000000000000000000000000000000000000000000000000000000012AB".to_string();
    let u = build_unsigned(Network::Testnet, &inputs, &sample_outputs(), 1).unwrap();
    let bytes = bitcoin::hashes::Hash::to_byte_array(u.tx.input[0].previous_output.txid);
    assert_eq!(bytes[0], 0xab);
    assert_eq!(bytes[1], 0x12);
    assert!(bytes[2..].iter().all(|b| *b == 0));
}

#[test]
fn txid_of_another_length_or_with_another_digit_is_refused() {
    for bad in [
        "",
        "ab",
        "111111111111111111111111111111111111111111111111111111111111111",
        "11111111111111111111111111111111111111111111111111111111111111111",
        "111111111111111111111111111111111111111111111111111111111111111g",
        " 111111111111111111111111111111111111111111111111111111111111111",
        "+11111111111111111111111111111111111111111111111111111111111111f",
        "１11111111111111111111111111111111111111111111111111111111111",
    ] {
        let mut inputs = sample_inputs();
        inputs[2].txid = bad.to_string();
        assert_eq!(
            build_unsigned(Network::Testnet, &inputs, &sample_outputs(), 1).err(),
            Some(TransactionError::InvalidTxid { input: 2 })
        );
    }
}

#[test]
fn finalize_succeeds_exactly_where_the_transaction_can_be_extracted() {
    // the inputs hold 50_930: outputs of that much leave no fee and are admitted
    for (amount, ok) in [(50_930u64, true), (50_931, false), (1, true)] {
        let outs = vec![payment(amount, 4)];
        let u = build_unsigned(Network::Testnet, &sample_inputs(), &outs, 1).unwrap();
        assert_eq!(finalize(&u, &signatures()).is_ok(), ok);
    }
}

const XPUB: &str = "xpub661MyMwAqRbcFtXgS5sYJABqqG9YLmC4Q1Rdap9gSE8NqtwybGhePY2gZ29ESFjqJoCu1Rupje8YtGqsefD265TMg7usUDFdp6W1EGMcet8";

fn with_key(path: &str, fingerprint: [u8; 4]) -> Psbt {
    let (mut psbt, _) = two_psbts();
    let key: bitcoin::bip32::Xpub = XPUB.parse().unwrap();
    let path: bitcoin::bip32::DerivationPath = path.parse().unwrap();
    psbt.xpub.insert(key, (bitcoin::bip32::Fingerprint::from(fingerprint), path));
    psbt
}

fn merge(first: &Psbt, second: &Psbt) -> Result<Psbt, CombineError> {
    let text = combine_psbt(&hex::encode(first.serialize()), &hex::encode(second.serialize()))?;
    #[allow(deprecated)]
    let bytes = base64::decode(&text).unwrap();
    Ok(Psbt::deserialize(&bytes).unwrap())
}

#[test]
fn combine_refuses_keys_whose_paths_do_not_agree() {
    let long = with_key("m/1/2", [0; 4]);
    let short = with_key("m/3", [0; 4]);
    assert_eq!(merge(&long, &short).err(), Some(CombineError::IncompatibleSkeleton));
    assert_eq!(merge(&short, &long).err(), Some(CombineError::IncompatibleSkeleton));
    let other = with_key("m/1/3", [0; 4]);
    assert_eq!(merge(&long, &other).err(), Some(CombineError::IncompatibleSkeleton));
}

#[test]
fn combine_keeps_the_longer_path_of_a_key() {
    let long = with_key("m/9/1/2", [1; 4]);
    let short = with_key("m/1/2", [2; 4]);
    let key: bitcoin::bip32::Xpub = XPUB.parse().unwrap();
    for (first, second) in [(&long, &short), (&short, &long)] {
        let merged = merge(first, second).unwrap();
        assert_eq!(merged.xpub[&key].1, "m/9/1/2".parse().unwrap());
        let mut expected = first.clone();
        expected.combine(second.clone()).unwrap();
        assert_eq!(merged, expected);
    }
    let same = merge(&long, &long).unwrap();
    assert_eq!(same.xpub[&key].1, "m/9/1/2".parse().unwrap());
    let (bare, _) = two_psbts();
    assert_eq!(merge(&bare, &long).unwrap().xpub.len(), 1);
}

fn source(key: u8, path: &[u32]) -> KeySource {
    KeySource { key: vec![key; 78], fingerprint: vec![0; 4], path: path.to_vec() }
}

#[test]
fn sources_of_one_key_agree_where_one_path_ends_the_other() {
    assert!(sources_can_merge(&vec![], &vec![]));
    assert!(sources_can_merge(&vec![source(1, &[1, 2])], &vec![source(1, &[1, 2])]));
    assert!(sources_can_merge(&vec![source(1, &[9, 1, 2])], &vec![source(1, &[1, 2])]));
    assert!(sources_can_merge(&vec![source(1, &[1, 2])], &vec![source(1, &[9, 1, 2])]));
    assert!(sources_can_merge(&vec![source(1, &[1, 2])], &vec![source(1, &[])]));
    assert!(sources_can_merge(&vec![source(1, &[1, 2])], &vec![source(2, &[3])]));
    assert!(!sources_can_merge(&vec![source(1, &[1, 2])], &vec![source(1, &[3])]));
    assert!(!sources_can_merge(&vec![source(1, &[3])], &vec![source(1, &[1, 2])]));
    assert!(!sources_can_merge(&vec![source(1, &[1, 2])], &vec![source(1, &[2, 1])]));
    assert!(!sources_can_merge(
        &vec![source(2, &[5]), source(1, &[1, 2])],
        &vec![source(2, &[5]), source(1, &[1, 2, 9])]
    ));
    let mut other = source(1, &[1, 2]);
    other.fingerprint = vec![7; 4];
    assert!(sources_can_merge(&vec![source(1, &[1, 2])], &vec![other]));
}
