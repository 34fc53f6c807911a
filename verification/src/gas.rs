//! Fee estimation: the virtual size of a transaction from the kinds of its
//! inputs and outputs, and the fee at a rate in satoshi per virtual byte.
//!
//! Sizes are counted in quarters of a byte, so that the fractions of the
//! witness discount are exact.

use vstd::prelude::*;

verus! {

/// The least value of an output that is worth spending, in satoshi.
pub const DUST_THRESHOLD: u64 = 330;

/// A spendable output that funds a transaction.
#[derive(Debug)]
pub struct Utxo {
    pub amount: u64,
    pub address: Option<String>,
}

/// An output of the transaction under construction.
#[derive(Debug)]
pub struct Output {
    pub amount: u64,
    pub script: Option<Script>,
    pub address: Option<String>,
}

/// An output script in hexadecimal.
#[derive(Debug)]
pub struct Script {
    pub hex: String,
}

/// What `calculate_fee_and_change` found.
#[derive(Debug, Clone, Copy, PartialEq, Eq, Structural)]
pub struct FeeCalculationResult {
    pub fee: u64,
    /// The change, or zero where it is below the dust threshold.
    pub change_amount: u64,
    /// The virtual size in bytes, rounded up.
    pub estimated_size: usize,
    pub total_input: u64,
    pub total_output: u64,
    pub include_change: bool,
}

/// How an input is spent.
#[derive(Debug, Clone, Copy, PartialEq, Eq, Structural)]
pub enum InputType {
    P2PKH,
    P2WPKH,
    P2TR,
}

/// What an output pays to.
#[derive(Debug, Clone, Copy, PartialEq, Eq, Structural)]
pub enum OutputType {
    P2PKH,
    P2WPKH,
    P2SH,
    P2TR,
}

/// The bytes of a text.
pub open spec fn text_bytes(s: Seq<char>) -> Seq<u8> {
    vstd::utf8::encode_utf8(s)
}

/// The bytes of an address that may be absent.
pub open spec fn address_bytes(address: Option<String>) -> Option<Seq<u8>> {
    match address {
        Some(a) => Some(text_bytes(a@)),
        None => None,
    }
}

/// Whether `b` begins with the four given bytes.
pub open spec fn begins_with(b: Seq<u8>, c0: u8, c1: u8, c2: u8, c3: u8) -> bool {
    b.len() >= 4 && b[0] == c0 && b[1] == c1 && b[2] == c2 && b[3] == c3
}

/// Begins with `bc1q` or `tb1q`.
pub open spec fn is_segwit_v0(b: Seq<u8>) -> bool {
    begins_with(b, 0x62, 0x63, 0x31, 0x71) || begins_with(b, 0x74, 0x62, 0x31, 0x71)
}

/// Begins with `bc1p` or `tb1p`.
pub open spec fn is_taproot(b: Seq<u8>) -> bool {
    begins_with(b, 0x62, 0x63, 0x31, 0x70) || begins_with(b, 0x74, 0x62, 0x31, 0x70)
}

/// Begins with `1`, `m` or `n`.
pub open spec fn is_legacy(b: Seq<u8>) -> bool {
    b.len() >= 1 && (b[0] == 0x31 || b[0] == 0x6d || b[0] == 0x6e)
}

/// Begins with `3` or `2`.
pub open spec fn is_script_hash(b: Seq<u8>) -> bool {
    b.len() >= 1 && (b[0] == 0x33 || b[0] == 0x32)
}

/// The kind of an input, by the beginning of its address alone. An address
/// that is absent or not recognised counts as taproot.
pub open spec fn input_kind(address: Option<Seq<u8>>) -> InputType {
    match address {
        Some(b) => if is_segwit_v0(b) {
            InputType::P2WPKH
        } else if is_taproot(b) {
            InputType::P2TR
        } else if is_legacy(b) {
            InputType::P2PKH
        } else {
            InputType::P2TR
        },
        None => InputType::P2TR,
    }
}

/// The kind of an output, by the beginning of its address alone. An address
/// that is absent or not recognised counts as taproot.
pub open spec fn output_kind(address: Option<Seq<u8>>) -> OutputType {
    match address {
        Some(b) => if is_segwit_v0(b) {
            OutputType::P2WPKH
        } else if is_taproot(b) {
            OutputType::P2TR
        } else if is_script_hash(b) {
            OutputType::P2SH
        } else if is_legacy(b) {
            OutputType::P2PKH
        } else {
            OutputType::P2TR
        },
        None => OutputType::P2TR,
    }
}

/// The size of an input in quarters of a virtual byte: 148, 67.5 and 57.25 bytes.
pub open spec fn input_weight(kind: InputType) -> int {
    match kind {
        InputType::P2PKH => 592,
        InputType::P2WPKH => 270,
        InputType::P2TR => 229,
    }
}

/// Whether an input of this kind carries a witness.
pub open spec fn bears_witness(kind: InputType) -> bool {
    kind != InputType::P2PKH
}

/// The size of an output in bytes.
pub open spec fn output_size(kind: OutputType) -> int {
    match kind {
        OutputType::P2PKH => 34,
        OutputType::P2WPKH => 31,
        OutputType::P2SH => 32,
        OutputType::P2TR => 43,
    }
}

/// The number of bytes in which a count is written.
pub open spec fn compact_size_len(n: int) -> int {
    if n <= 252 {
        1
    } else if n <= 65535 {
        3
    } else {
        5
    }
}

/// The size of an output that carries `payload_len` bytes of data: the
/// value, the length and the data.
pub open spec fn carrier_size(payload_len: int) -> int {
    8 + compact_size_len(payload_len) + payload_len
}

/// What every transaction has, in quarters of a byte: version, the two
/// counts and the lock time, and half a byte for the segwit marker where an
/// input carries a witness.
pub open spec fn overhead_weight(inputs: int, outputs: int, witness: bool) -> int {
    4 * (4 + compact_size_len(inputs) + compact_size_len(outputs) + 4) + if witness {
        2int
    } else {
        0int
    }
}

/// The virtual size in bytes of a weight in quarters, rounded up.
pub open spec fn vsize(weight: int) -> int {
    (weight + 3) / 4
}

/// The fee for `weight` quarters of a byte at `rate` satoshi a byte, rounded up.
pub open spec fn exact_fee(weight: int, rate: int) -> int {
    (weight * rate + 3) / 4
}

/// The fee, or the largest amount where the fee exceeds it.
pub open spec fn capped_fee(weight: int, rate: int) -> int {
    if exact_fee(weight, rate) > u64::MAX {
        u64::MAX as int
    } else {
        exact_fee(weight, rate)
    }
}

/// The weight of a transaction of taproot inputs and outputs.
pub open spec fn simple_weight(inputs: int, outputs: int) -> int {
    overhead_weight(inputs, outputs, inputs > 0) + 229 * inputs + 4 * 43 * outputs
}

/// The weight of a transaction of taproot inputs and outputs and one more
/// output that carries `payload_len` bytes.
pub open spec fn opreturn_weight(inputs: int, outputs: int, payload_len: int) -> int {
    overhead_weight(inputs, outputs + 1, inputs > 0) + 229 * inputs + 4 * 43 * outputs + 4
        * carrier_size(payload_len)
}

/// The kind of the input that `address` names.
pub fn get_input_type(address: &Option<String>) -> (kind: InputType)
    ensures
        kind == input_kind(address_bytes(*address)),
{
    match address {
        Some(addr) => {
            let b = addr.as_str().as_bytes();
            if has_prefix(b, 0x62, 0x63, 0x31, 0x71) || has_prefix(b, 0x74, 0x62, 0x31, 0x71) {
                InputType::P2WPKH
            } else if has_prefix(b, 0x62, 0x63, 0x31, 0x70) || has_prefix(b, 0x74, 0x62, 0x31, 0x70) {
                InputType::P2TR
            } else if b.len() >= 1 && (b[0] == 0x31 || b[0] == 0x6d || b[0] == 0x6e) {
                InputType::P2PKH
            } else {
                InputType::P2TR
            }
        },
        None => InputType::P2TR,
    }
}

/// The kind of the output that `address` names.
pub fn get_output_type(address: &Option<String>) -> (kind: OutputType)
    ensures
        kind == output_kind(address_bytes(*address)),
{
    match address {
        Some(addr) => {
            let b = addr.as_str().as_bytes();
            if has_prefix(b, 0x62, 0x63, 0x31, 0x71) || has_prefix(b, 0x74, 0x62, 0x31, 0x71) {
                OutputType::P2WPKH
            } else if has_prefix(b, 0x62, 0x63, 0x31, 0x70) || has_prefix(b, 0x74, 0x62, 0x31, 0x70) {
                OutputType::P2TR
            } else if b.len() >= 1 && (b[0] == 0x33 || b[0] == 0x32) {
                OutputType::P2SH
            } else if b.len() >= 1 && (b[0] == 0x31 || b[0] == 0x6d || b[0] == 0x6e) {
                OutputType::P2PKH
            } else {
                OutputType::P2TR
            }
        },
        None => OutputType::P2TR,
    }
}

fn has_prefix(b: &[u8], c0: u8, c1: u8, c2: u8, c3: u8) -> (r: bool)
    ensures
        r == begins_with(b@, c0, c1, c2, c3),
{
    b.len() >= 4 && b[0] == c0 && b[1] == c1 && b[2] == c2 && b[3] == c3
}

/// The number of bytes in which the count `n` is written.
pub fn compact_size_length(n: u128) -> (len: u128)
    ensures
        len == compact_size_len(n as int),
{
    if n <= 252 {
        1
    } else if n <= 65535 {
        3
    } else {
        5
    }
}

/// The fee for `weight` quarters of a byte at `rate` satoshi a byte,
/// rounded up to a whole satoshi and capped at the largest amount.
pub fn fee_for_weight(weight: u128, rate: u64) -> (fee: u64)
    ensures
        fee == capped_fee(weight as int, rate as int),
{
    match weight.checked_mul(rate as u128) {
        Some(product) => {
            let whole: u128 = product / 4;
            let fee: u128 = if product % 4 != 0 {
                whole + 1
            } else {
                whole
            };
            assert(fee == exact_fee(weight as int, rate as int));
            if fee > u64::MAX as u128 {
                u64::MAX
            } else {
                fee as u64
            }
        },
        None => {
            assert(weight * rate > u128::MAX);
            u64::MAX
        },
    }
}

/// Weight of the simple model, computed.
fn weight_simple(input_count: usize, output_count: usize) -> (w: u128)
    ensures
        w == simple_weight(input_count as int, output_count as int),
        w <= 1000 * (input_count + output_count) + 100,
{
    let n: u128 = input_count as u128;
    let m: u128 = output_count as u128;
    let marker: u128 = if input_count > 0 {
        2
    } else {
        0
    };
    4 * (4 + compact_size_length(n) + compact_size_length(m) + 4) + marker + 229 * n + 172 * m
}

/// The fee of a transaction with `input_count` taproot inputs and
/// `output_count` taproot outputs, at `fee_rate` satoshi a virtual byte.
pub fn calculate_fee_simple(input_count: usize, output_count: usize, fee_rate: u64) -> (fee: u64)
    ensures
        fee == capped_fee(simple_weight(input_count as int, output_count as int), fee_rate as int),
{
    fee_for_weight(weight_simple(input_count, output_count), fee_rate)
}

/// The fee of a transaction with `input_count` taproot inputs,
/// `output_count` taproot outputs and one more output that carries
/// `runestone_bytes` bytes, at `fee_rate` satoshi a virtual byte.
pub fn calculate_fee_with_opreturn(
    input_count: usize,
    output_count: usize,
    runestone_bytes: usize,
    fee_rate: u64,
) -> (fee: u64)
    ensures
        fee == capped_fee(
            opreturn_weight(input_count as int, output_count as int, runestone_bytes as int),
            fee_rate as int,
        ),
{
    let n: u128 = input_count as u128;
    let m: u128 = output_count as u128;
    let data: u128 = runestone_bytes as u128;
    let marker: u128 = if input_count > 0 {
        2
    } else {
        0
    };
    let carrier: u128 = 8 + compact_size_length(data) + data;
    let weight: u128 = 4 * (4 + compact_size_length(n) + compact_size_length(m + 1) + 4) + marker
        + 229 * n + 172 * m + 4 * carrier;
    fee_for_weight(weight, fee_rate)
}

/// The same fee as `calculate_fee_with_opreturn`.
pub fn calculate_fee_p2tr_with_opreturn(
    input_count: usize,
    output_count: usize,
    runestone_bytes: usize,
    fee_rate: u64,
) -> (fee: u64)
    ensures
        fee == capped_fee(
            opreturn_weight(input_count as int, output_count as int, runestone_bytes as int),
            fee_rate as int,
        ),
{
    calculate_fee_with_opreturn(input_count, output_count, runestone_bytes, fee_rate)
}

/// The kind of the input that a spendable output makes.
pub open spec fn utxo_kind(utxo: Utxo) -> InputType {
    input_kind(address_bytes(utxo.address))
}

/// The sizes of the inputs together, in quarters of a byte.
pub open spec fn inputs_weight(utxos: Seq<Utxo>) -> int
    decreases utxos.len(),
{
    if utxos.len() == 0 {
        0
    } else {
        inputs_weight(utxos.drop_last()) + input_weight(utxo_kind(utxos.last()))
    }
}

/// Whether one of the inputs carries a witness.
pub open spec fn any_witness(utxos: Seq<Utxo>) -> bool
    decreases utxos.len(),
{
    if utxos.len() == 0 {
        false
    } else {
        any_witness(utxos.drop_last()) || bears_witness(utxo_kind(utxos.last()))
    }
}

/// The amounts of the inputs together.
pub open spec fn total_input(utxos: Seq<Utxo>) -> int
    decreases utxos.len(),
{
    if utxos.len() == 0 {
        0
    } else {
        total_input(utxos.drop_last()) + utxos.last().amount
    }
}

/// The amounts of the outputs together.
pub open spec fn total_output(outputs: Seq<Output>) -> int
    decreases outputs.len(),
{
    if outputs.len() == 0 {
        0
    } else {
        total_output(outputs.drop_last()) + outputs.last().amount
    }
}

/// The number of bytes that a script in hexadecimal stands for: half its
/// length, rounded up.
pub open spec fn script_data_len(script: Script) -> int {
    (text_bytes(script.hex@).len() as int + 1) / 2
}

/// Whether an output is part of the estimate: one without a script, or
/// one whose script is not empty.
pub open spec fn is_counted(output: Output) -> bool {
    match output.script {
        None => true,
        Some(script) => text_bytes(script.hex@).len() > 0,
    }
}

/// The size of one output in bytes: by the kind of its address where it
/// has no script, else the size of an output that carries the script; an
/// output with an empty script is left out.
pub open spec fn output_bytes(output: Output) -> int {
    match output.script {
        None => output_size(output_kind(address_bytes(output.address))),
        Some(script) => if text_bytes(script.hex@).len() > 0 {
            carrier_size(script_data_len(script))
        } else {
            0
        },
    }
}

/// The sizes of the outputs together, in bytes.
pub open spec fn outputs_bytes(outputs: Seq<Output>) -> int
    decreases outputs.len(),
{
    if outputs.len() == 0 {
        0
    } else {
        outputs_bytes(outputs.drop_last()) + output_bytes(outputs.last())
    }
}

/// How many of the outputs are part of the estimate.
pub open spec fn counted_outputs(outputs: Seq<Output>) -> int
    decreases outputs.len(),
{
    if outputs.len() == 0 {
        0
    } else {
        counted_outputs(outputs.drop_last()) + if is_counted(outputs.last()) {
            1int
        } else {
            0int
        }
    }
}

/// The weight of a transaction that spends `utxos` to `outputs`, in
/// quarters of a byte.
pub open spec fn estimate_weight(utxos: Seq<Utxo>, outputs: Seq<Output>) -> int {
    overhead_weight(utxos.len() as int, counted_outputs(outputs), any_witness(utxos))
        + inputs_weight(utxos) + 4 * outputs_bytes(outputs)
}

/// The fee of that transaction at `rate` satoshi a virtual byte.
pub open spec fn estimate_fee(utxos: Seq<Utxo>, outputs: Seq<Output>, rate: int) -> int {
    capped_fee(estimate_weight(utxos, outputs), rate)
}

/// Whether the estimate can be given: the size and the two totals fit
/// their types, and the inputs pay for the outputs and the fee.
pub open spec fn can_pay(utxos: Seq<Utxo>, outputs: Seq<Output>, rate: int) -> bool {
    &&& vsize(estimate_weight(utxos, outputs)) <= usize::MAX
    &&& total_input(utxos) <= u64::MAX
    &&& total_output(outputs) <= u64::MAX
    &&& total_input(utxos) >= total_output(outputs) + estimate_fee(utxos, outputs, rate)
}

/// The estimate: fee, size and totals, and the change, which is what the
/// inputs hold beyond outputs and fee. Change below the dust threshold is
/// not paid out and reported as zero.
pub open spec fn fee_and_change(utxos: Seq<Utxo>, outputs: Seq<Output>, rate: int)
    -> FeeCalculationResult {
    let fee = estimate_fee(utxos, outputs, rate);
    let change = total_input(utxos) - total_output(outputs) - fee;
    FeeCalculationResult {
        fee: fee as u64,
        change_amount: if change >= DUST_THRESHOLD {
            change as u64
        } else {
            0
        },
        estimated_size: vsize(estimate_weight(utxos, outputs)) as usize,
        total_input: total_input(utxos) as u64,
        total_output: total_output(outputs) as u64,
        include_change: change >= DUST_THRESHOLD,
    }
}

/// What the inputs add up to: their weight, whether one carries a witness,
/// and their amounts.
fn sum_inputs(utxos: &Vec<Utxo>) -> (r: (u128, bool, u128))
    ensures
        r.0 == inputs_weight(utxos@),
        r.0 <= 592 * utxos.len(),
        r.1 == any_witness(utxos@),
        r.2 == total_input(utxos@),
{
    let mut weight: u128 = 0;
    let mut witness: bool = false;
    let mut total: u128 = 0;
    let mut i: usize = 0;
    assert(utxos@.take(0) =~= Seq::<Utxo>::empty());
    while i < utxos.len()
        invariant
            i <= utxos.len(),
            weight == inputs_weight(utxos@.take(i as int)),
            weight <= 592 * i,
            witness == any_witness(utxos@.take(i as int)),
            total == total_input(utxos@.take(i as int)),
            total <= i * 0xffff_ffff_ffff_ffff,
        decreases utxos.len() - i,
    {
        proof {
            assert(utxos@.take(i + 1).drop_last() =~= utxos@.take(i as int));
            assert(utxos@.take(i + 1).last() == utxos@[i as int]);
        }
        let kind = get_input_type(&utxos[i].address);
        match kind {
            InputType::P2PKH => {
                weight += 592;
            },
            InputType::P2WPKH => {
                weight += 270;
                witness = true;
            },
            InputType::P2TR => {
                weight += 229;
                witness = true;
            },
        }
        total += utxos[i].amount as u128;
        i += 1;
    }
    assert(utxos@.take(utxos@.len() as int) =~= utxos@);
    (weight, witness, total)
}

/// What the outputs add up to: their sizes, how many are counted, and
/// their amounts.
fn sum_outputs(outputs: &Vec<Output>) -> (r: (u128, u128, u128))
    ensures
        r.0 == outputs_bytes(outputs@),
        r.0 <= outputs.len() * 0x8000_0000_0000_000e,
        r.1 == counted_outputs(outputs@),
        r.2 == total_output(outputs@),
{
    let mut bytes: u128 = 0;
    let mut counted: u128 = 0;
    let mut total: u128 = 0;
    let mut i: usize = 0;
    assert(outputs@.take(0) =~= Seq::<Output>::empty());
    while i < outputs.len()
        invariant
            i <= outputs.len(),
            bytes == outputs_bytes(outputs@.take(i as int)),
            bytes <= i * 0x8000_0000_0000_000e,
            counted == counted_outputs(outputs@.take(i as int)),
            counted <= i,
            total == total_output(outputs@.take(i as int)),
            total <= i * 0xffff_ffff_ffff_ffff,
        decreases outputs.len() - i,
    {
        proof {
            assert(outputs@.take(i + 1).drop_last() =~= outputs@.take(i as int));
            assert(outputs@.take(i + 1).last() == outputs@[i as int]);
        }
        let output = &outputs[i];
        match &output.script {
            None => {
                let size: u128 = match get_output_type(&output.address) {
                    OutputType::P2PKH => 34,
                    OutputType::P2WPKH => 31,
                    OutputType::P2SH => 32,
                    OutputType::P2TR => 43,
                };
                bytes += size;
                counted += 1;
            },
            Some(script) => {
                let hex_len: usize = script.hex.as_str().as_bytes().len();
                if hex_len > 0 {
                    let data: u128 = (hex_len / 2) as u128 + (hex_len % 2) as u128;
                    bytes += 8 + compact_size_length(data) + data;
                    counted += 1;
                }
            },
        }
        total += output.amount as u128;
        i += 1;
    }
    assert(outputs@.take(outputs@.len() as int) =~= outputs@);
    (bytes, counted, total)
}

/// The estimate for a transaction that spends `utxos` to `base_outputs`
/// at `fee_rate` satoshi a virtual byte; `None` where it cannot be given.
pub fn try_calculate_fee_and_change(
    utxos: &Vec<Utxo>,
    base_outputs: &Vec<Output>,
    fee_rate: u64,
) -> (r: Option<FeeCalculationResult>)
    ensures
        match r {
            Some(found) => can_pay(utxos@, base_outputs@, fee_rate as int) && found
                == fee_and_change(utxos@, base_outputs@, fee_rate as int),
            None => !can_pay(utxos@, base_outputs@, fee_rate as int),
        },
{
    let (input_weight, witness, total_in) = sum_inputs(utxos);
    let (bytes, counted, total_out) = sum_outputs(base_outputs);
    let marker: u128 = if witness {
        2
    } else {
        0
    };
    let overhead: u128 = 4 + compact_size_length(utxos.len() as u128) + compact_size_length(
        counted,
    ) + 4;
    let whole_bytes: u128 = overhead + bytes;
    let quarters: u128 = input_weight + marker;
    let size: u128 = whole_bytes + (quarters + 3) / 4;
    assert(size == vsize(estimate_weight(utxos@, base_outputs@)));
    if size > usize::MAX as u128 {
        return None;
    }
    let weight: u128 = 4 * whole_bytes + quarters;
    let fee: u64 = fee_for_weight(weight, fee_rate);
    if total_in > u64::MAX as u128 || total_out > u64::MAX as u128 {
        return None;
    }
    if total_in < total_out + fee as u128 {
        return None;
    }
    let change: u64 = (total_in - total_out - fee as u128) as u64;
    let include_change: bool = change >= DUST_THRESHOLD;
    Some(
        FeeCalculationResult {
            fee,
            change_amount: if include_change {
                change
            } else {
                0
            },
            estimated_size: size as usize,
            total_input: total_in as u64,
            total_output: total_out as u64,
            include_change,
        },
    )
}

/// The estimate for a transaction that spends `utxos` to `base_outputs`
/// at `fee_rate` satoshi a virtual byte, where the inputs pay for the
/// outputs and the fee.
pub fn calculate_fee_and_change(utxos: Vec<Utxo>, base_outputs: Vec<Output>, fee_rate: u64) -> (found:
    FeeCalculationResult)
    requires
        can_pay(utxos@, base_outputs@, fee_rate as int),
    ensures
        found == fee_and_change(utxos@, base_outputs@, fee_rate as int),
{
    match try_calculate_fee_and_change(&utxos, &base_outputs, fee_rate) {
        Some(found) => found,
        None => FeeCalculationResult {
            fee: 0,
            change_amount: 0,
            estimated_size: 0,
            total_input: 0,
            total_output: 0,
            include_change: false,
        },
    }
}

/// Rounding up keeps the order, and a weight larger by four quarters or
/// more, at a rate that is not zero, gives a larger fee.
pub proof fn lemma_exact_fee_increases(lighter: int, heavier: int, rate: int)
    requires
        0 <= lighter,
        lighter + 4 <= heavier,
        rate >= 1,
    ensures
        exact_fee(lighter, rate) < exact_fee(heavier, rate),
{
    assert(lighter * rate + 4 <= heavier * rate) by (nonlinear_arith)
        requires
            lighter + 4 <= heavier,
            rate >= 1,
            0 <= lighter,
    ;
}

/// One more input makes the fee larger, at every rate that is not zero,
/// as long as the smaller fee has not reached the cap.
pub proof fn lemma_fee_increases_with_inputs(inputs: nat, outputs: nat, rate: nat)
    requires
        rate >= 1,
        exact_fee(simple_weight(inputs as int, outputs as int), rate as int) < u64::MAX,
    ensures
        capped_fee(simple_weight(inputs as int + 1, outputs as int), rate as int) > capped_fee(
            simple_weight(inputs as int, outputs as int),
            rate as int,
        ),
{
    lemma_exact_fee_increases(
        simple_weight(inputs as int, outputs as int),
        simple_weight(inputs as int + 1, outputs as int),
        rate as int,
    );
}

/// One more input makes the fee of a transaction with a carrier output
/// larger, at every rate that is not zero, as long as the smaller fee has
/// not reached the cap.
pub proof fn lemma_opreturn_fee_increases_with_inputs(
    inputs: nat,
    outputs: nat,
    payload_len: nat,
    rate: nat,
)
    requires
        rate >= 1,
        exact_fee(opreturn_weight(inputs as int, outputs as int, payload_len as int), rate as int)
            < u64::MAX,
    ensures
        capped_fee(opreturn_weight(inputs as int + 1, outputs as int, payload_len as int), rate as int)
            > capped_fee(
            opreturn_weight(inputs as int, outputs as int, payload_len as int),
            rate as int,
        ),
{
    lemma_exact_fee_increases(
        opreturn_weight(inputs as int, outputs as int, payload_len as int),
        opreturn_weight(inputs as int + 1, outputs as int, payload_len as int),
        rate as int,
    );
}

/// A longer payload makes the fee larger, at every rate that is not zero,
/// as long as the smaller fee has not reached the cap.
pub proof fn lemma_fee_increases_with_payload(
    inputs: nat,
    outputs: nat,
    shorter: nat,
    longer: nat,
    rate: nat,
)
    requires
        rate >= 1,
        shorter < longer,
        exact_fee(opreturn_weight(inputs as int, outputs as int, shorter as int), rate as int)
            < u64::MAX,
    ensures
        capped_fee(opreturn_weight(inputs as int, outputs as int, longer as int), rate as int)
            > capped_fee(
            opreturn_weight(inputs as int, outputs as int, shorter as int),
            rate as int,
        ),
{
    lemma_exact_fee_increases(
        opreturn_weight(inputs as int, outputs as int, shorter as int),
        opreturn_weight(inputs as int, outputs as int, longer as int),
        rate as int,
    );
}

/// Where the rate is zero or the smaller fee has reached the cap, a
/// heavier transaction costs the same.
pub proof fn lemma_fee_stays(lighter: int, heavier: int, rate: int)
    requires
        0 <= lighter <= heavier,
        rate == 0 || (rate >= 1 && exact_fee(lighter, rate) >= u64::MAX),
    ensures
        capped_fee(heavier, rate) == capped_fee(lighter, rate),
{
    if rate >= 1 {
        assert(lighter * rate <= heavier * rate) by (nonlinear_arith)
            requires
                lighter <= heavier,
                rate >= 1,
        ;
    } else {
        assert(lighter * rate == 0 && heavier * rate == 0) by (nonlinear_arith)
            requires
                rate == 0,
        ;
    }
}

} // verus!
