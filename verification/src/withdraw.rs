//! Planning a withdrawal: what is required of each asset, the edicts that
//! pay it out and return the change, and the bitcoin that pays the fee.

use crate::gas::{calculate_fee_with_opreturn, capped_fee, opreturn_weight};
use crate::protostone::RuneId;
use crate::script::EdictInput;
use crate::selection::{change_run, selection_views, AssetSelection, AssetSelectionView, Requirement};
use crate::transaction::{TransactionInput, TransactionOutput};
use vstd::prelude::*;

verus! {

/// What is kept beyond the estimated fee when funding inputs are chosen, in satoshi.
pub const FUNDING_RESERVE: u64 = 2000;

/// The value above which change is paid out, in satoshi.
pub const CHANGE_FLOOR: u64 = 330;

/// One request to pay out `token_amount` units of the asset that
/// `token_id` names to `withdraw_address`.
#[derive(Debug)]
pub struct WithdrawRequest {
    pub ic_txid: String,
    pub token_type: String,
    pub token_id: String,
    pub token_amount: u64,
    pub withdraw_address: String,
}

/// A spendable output that holds bitcoin alone.
#[derive(Debug)]
pub struct UtxoInfo {
    pub value: u64,
    pub txid: String,
    pub vout: u32,
}

/// What each of the outputs holds.
pub open spec fn values_of(utxos: Seq<UtxoInfo>) -> Seq<u64> {
    utxos.map_values(|u: UtxoInfo| u.value)
}

/// What each of the outputs holds, in their order.
pub fn funding_values(utxos: &Vec<UtxoInfo>) -> (values: Vec<u64>)
    ensures
        values@ == values_of(utxos@),
{
    let mut values: Vec<u64> = Vec::new();
    let mut i: usize = 0;
    assert(values@ =~= values_of(utxos@.take(0)));
    while i < utxos.len()
        invariant
            i <= utxos.len(),
            values@ == values_of(utxos@.take(i as int)),
        decreases utxos.len() - i,
    {
        values.push(utxos[i].value);
        i += 1;
        assert(values@ =~= values_of(utxos@.take(i as int)));
    }
    assert(utxos@.take(utxos@.len() as int) =~= utxos@);
    values
}

/// The index of the first requirement for `asset`.
pub open spec fn position_of(reqs: Seq<Requirement>, asset: RuneId, n: nat) -> Option<int>
    decreases n,
{
    if n == 0 {
        None
    } else {
        match position_of(reqs, asset, (n - 1) as nat) {
            Some(i) => Some(i),
            None => if reqs[n - 1].asset == asset {
                Some(n - 1)
            } else {
                None
            },
        }
    }
}

/// Whether no asset has two requirements.
pub open spec fn distinct_assets(reqs: Seq<Requirement>) -> bool {
    forall|i: int, j: int| 0 <= i < j < reqs.len() ==> reqs[i].asset != reqs[j].asset
}

/// The requirements with `amount` more of `asset`: added to the
/// requirement that the asset has, or as a new one behind the others.
/// `None` where the sum exceeds 64 bits.
pub open spec fn with_amount(reqs: Seq<Requirement>, asset: RuneId, amount: u64) -> Option<
    Seq<Requirement>,
> {
    match position_of(reqs, asset, reqs.len()) {
        Some(i) => if reqs[i].amount + amount <= u64::MAX {
            Some(reqs.update(i, Requirement { asset, amount: (reqs[i].amount + amount) as u64 }))
        } else {
            None
        },
        None => Some(reqs.push(Requirement { asset, amount })),
    }
}

/// What the requests require of each asset: the sum of their amounts, the
/// assets in the order in which they first occur. `None` where a sum
/// exceeds 64 bits.
pub open spec fn summed(requests: Seq<Requirement>) -> Option<Seq<Requirement>>
    decreases requests.len(),
{
    if requests.len() == 0 {
        Some(Seq::<Requirement>::empty())
    } else {
        match summed(requests.drop_last()) {
            Some(reqs) => with_amount(reqs, requests.last().asset, requests.last().amount),
            None => None,
        }
    }
}

/// No requirement for the asset before `i`, and one at `i` or nowhere.
proof fn lemma_position_of(reqs: Seq<Requirement>, asset: RuneId, i: int, n: nat)
    requires
        0 <= i <= n <= reqs.len(),
        position_of(reqs, asset, i as nat) is None,
        i < reqs.len() ==> reqs[i].asset == asset,
    ensures
        position_of(reqs, asset, n) == if i < n {
            Some(i)
        } else {
            None::<int>
        },
    decreases n,
{
    if i < n {
        lemma_position_of(reqs, asset, i, (n - 1) as nat);
    }
}

/// Where no requirement is found for an asset, none has it.
proof fn lemma_position_none(reqs: Seq<Requirement>, asset: RuneId, n: nat)
    requires
        n <= reqs.len(),
        position_of(reqs, asset, n) is None,
    ensures
        forall|j: int| 0 <= j < n ==> (#[trigger] reqs[j]).asset != asset,
    decreases n,
{
    if n > 0 {
        lemma_position_none(reqs, asset, (n - 1) as nat);
    }
}

/// Adds `amount` to what is required of `asset`. Returns whether it was
/// added: where the sum exceeds 64 bits nothing changes.
pub fn add_requirement(reqs: &mut Vec<Requirement>, asset: RuneId, amount: u64) -> (added: bool)
    ensures
        match with_amount(old(reqs)@, asset, amount) {
            Some(after) => added && final(reqs)@ == after,
            None => !added && final(reqs)@ == old(reqs)@,
        },
        distinct_assets(old(reqs)@) ==> distinct_assets(final(reqs)@),
{
    let mut i: usize = 0;
    while i < reqs.len() && !(reqs[i].asset.block == asset.block && reqs[i].asset.tx == asset.tx)
        invariant
            i <= reqs.len(),
            reqs@ == old(reqs)@,
            position_of(reqs@, asset, i as nat) is None,
        decreases reqs.len() - i,
    {
        i += 1;
    }
    proof {
        lemma_position_of(reqs@, asset, i as int, reqs@.len());
    }
    if i == reqs.len() {
        proof {
            lemma_position_none(reqs@, asset, reqs@.len());
        }
        reqs.push(Requirement { asset, amount });
        true
    } else {
        match reqs[i].amount.checked_add(amount) {
            Some(sum) => {
                reqs.set(i, Requirement { asset, amount: sum });
                true
            },
            None => false,
        }
    }
}

/// What the requests require of each asset.
pub fn required_amounts(requests: &Vec<Requirement>) -> (r: Option<Vec<Requirement>>)
    ensures
        match r {
            Some(reqs) => summed(requests@) == Some(reqs@) && distinct_assets(reqs@),
            None => summed(requests@) is None,
        },
{
    let mut reqs: Vec<Requirement> = Vec::new();
    let mut i: usize = 0;
    assert(requests@.take(0) =~= Seq::<Requirement>::empty());
    while i < requests.len()
        invariant
            i <= requests.len(),
            summed(requests@.take(i as int)) == Some(reqs@),
            distinct_assets(reqs@),
        decreases requests.len() - i,
    {
        proof {
            assert(requests@.take(i + 1).drop_last() =~= requests@.take(i as int));
            assert(requests@.take(i + 1).last() == requests@[i as int]);
        }
        if !add_requirement(&mut reqs, requests[i].asset, requests[i].amount) {
            proof {
                lemma_summed_fails(requests@, i + 1);
            }
            return None;
        }
        i += 1;
    }
    assert(requests@.take(requests@.len() as int) =~= requests@);
    Some(reqs)
}

/// Once the sums of a front part exceed 64 bits, so do those of the whole.
proof fn lemma_summed_fails(requests: Seq<Requirement>, k: int)
    requires
        0 <= k <= requests.len(),
        summed(requests.take(k)) is None,
    ensures
        summed(requests) is None,
    decreases requests.len() - k,
{
    if k < requests.len() {
        assert(requests.take(k + 1).drop_last() =~= requests.take(k));
        lemma_summed_fails(requests, k + 1);
    } else {
        assert(requests.take(k) =~= requests);
    }
}

/// The edicts that pay the requests out: the `i`-th request to the output
/// `i + 1`. A request for nothing keeps its output and gets no edict, since
/// no edict moves the amount zero.
pub open spec fn payout_run(requests: Seq<Requirement>) -> Seq<EdictInput>
    decreases requests.len(),
{
    if requests.len() == 0 {
        Seq::<EdictInput>::empty()
    } else if requests.last().amount == 0 {
        payout_run(requests.drop_last())
    } else {
        payout_run(requests.drop_last()).push(
            EdictInput {
                block: requests.last().asset.block,
                tx: requests.last().asset.tx,
                amount: requests.last().amount as u128,
                output: requests.len() as u32,
            },
        )
    }
}

/// The edicts that return the change of `sels` to `output`.
pub open spec fn change_inputs(sels: Seq<AssetSelectionView>, output: u32) -> Seq<EdictInput> {
    change_run(sels, output).map_values(
        |e: crate::protostone::Edict|
            EdictInput { block: e.id.block, tx: e.id.tx, amount: e.amount, output: e.output },
    )
}

/// The edicts of a withdrawal: each request paid to its own output, the
/// outputs counted from 1 in the order of the requests, and behind them the
/// change of each selection, returned to `change_output`. A request for
/// the amount zero has its output and no edict. `None` where there are more
/// requests than outputs can be numbered.
pub fn withdrawal_edicts(
    requests: &Vec<Requirement>,
    sels: &Vec<AssetSelection>,
    change_output: u32,
) -> (r: Option<Vec<EdictInput>>)
    ensures
        match r {
            Some(edicts) => requests.len() < u32::MAX && edicts@ == payout_run(requests@)
                + change_inputs(selection_views(sels@), change_output),
            None => requests.len() >= u32::MAX,
        },
{
    if requests.len() >= u32::MAX as usize {
        return None;
    }
    let mut edicts: Vec<EdictInput> = Vec::new();
    let mut i: usize = 0;
    assert(requests@.take(0) =~= Seq::<Requirement>::empty());
    while i < requests.len()
        invariant
            i <= requests.len() < u32::MAX,
            edicts@ == payout_run(requests@.take(i as int)),
        decreases requests.len() - i,
    {
        proof {
            assert(requests@.take(i + 1).drop_last() =~= requests@.take(i as int));
            assert(requests@.take(i + 1).last() == requests@[i as int]);
        }
        let request = requests[i];
        if request.amount != 0 {
            edicts.push(
                EdictInput {
                    block: request.asset.block,
                    tx: request.asset.tx,
                    amount: request.amount as u128,
                    output: (i + 1) as u32,
                },
            );
        }
        i += 1;
    }
    assert(requests@.take(requests@.len() as int) =~= requests@);
    let change = crate::selection::change_edicts(sels, change_output);
    let ghost payouts = edicts@;
    let mut j: usize = 0;
    assert(edicts@ =~= payouts + change_inputs(selection_views(sels@), change_output).take(0));
    while j < change.len()
        invariant
            j <= change.len(),
            change@ == change_run(selection_views(sels@), change_output),
            edicts@ == payouts + change_inputs(selection_views(sels@), change_output).take(
                j as int,
            ),
        decreases change.len() - j,
    {
        let e = change[j];
        edicts.push(
            EdictInput { block: e.id.block, tx: e.id.tx, amount: e.amount, output: e.output },
        );
        j += 1;
        assert(edicts@ =~= payouts + change_inputs(selection_views(sels@), change_output).take(
            j as int,
        ));
    }
    assert(change_inputs(selection_views(sels@), change_output).take(change@.len() as int)
        =~= change_inputs(selection_views(sels@), change_output));
    Some(edicts)
}

/// How many values are taken from the front until they reach `target`: at
/// least one where there is one, and all where the target is never reached.
pub open spec fn funded_count(values: Seq<u64>, target: int) -> nat
    decreases values.len(),
{
    if values.len() == 0 {
        0
    } else if values[0] >= target {
        1
    } else {
        1 + funded_count(values.drop_first(), target - values[0])
    }
}

/// The values together.
pub open spec fn values_sum(values: Seq<u64>) -> int
    decreases values.len(),
{
    if values.len() == 0 {
        0
    } else {
        values_sum(values.drop_last()) + values.last()
    }
}

/// The funding inputs that were taken.
#[derive(Debug, Clone, Copy, PartialEq, Eq, Structural)]
pub struct Funding {
    /// How many of the offered values were taken, from the front.
    pub count: usize,
    /// What they hold together.
    pub total: u128,
}

/// Why a withdrawal cannot be funded.
#[derive(Debug, Clone, Copy, PartialEq, Eq, Structural)]
pub enum FundingError {
    /// All that is at hand is `available`, less than `required`.
    InsufficientFunds { required: u128, available: u128 },
}

/// Takes values from the front until they hold `target` together; the
/// first is taken whatever the target. Fails where all together hold less.
pub fn fund(values: &[u64], target: u128) -> (r: Result<Funding, FundingError>)
    ensures
        match r {
            Ok(f) => {
                &&& values_sum(values@) >= target
                &&& f.count <= values.len()
                &&& f.count == funded_count(values@, target as int)
                &&& f.total == values_sum(values@.take(f.count as int))
                &&& f.total >= target
            },
            Err(e) => values_sum(values@) < target && e == (FundingError::InsufficientFunds {
                required: target,
                available: values_sum(values@) as u128,
            }),
        },
{
    let mut total: u128 = 0;
    let mut k: usize = 0;
    proof {
        assert(values@.take(0) =~= Seq::<u64>::empty());
        assert(values@.skip(0) =~= values@);
    }
    while k < values.len() && (k == 0 || total < target)
        invariant
            k <= values.len(),
            total == values_sum(values@.take(k as int)),
            total <= k * 0xffff_ffff_ffff_ffff,
            k > 0 && total >= target ==> funded_count(values@, target as int) == k,
            k == 0 || total < target ==> k + funded_count(values@.skip(k as int), target - total)
                == funded_count(values@, target as int),
        decreases values.len() - k,
    {
        proof {
            assert(values@.take(k + 1).drop_last() =~= values@.take(k as int));
            assert(values@.take(k + 1).last() == values@[k as int]);
            assert(values@.skip(k as int)[0] == values@[k as int]);
            assert(values@.skip(k as int).drop_first() =~= values@.skip(k + 1));
        }
        total += values[k] as u128;
        k += 1;
    }
    proof {
        lemma_values_sum_front(values@, k as int);
        if k == values.len() {
            assert(values@.take(k as int) =~= values@);
            assert(values@.skip(k as int) =~= Seq::<u64>::empty());
        }
    }
    if total < target {
        Err(FundingError::InsufficientFunds { required: target, available: total })
    } else {
        Ok(Funding { count: k, total })
    }
}

/// A front part holds no more than the whole.
pub proof fn lemma_values_sum_front(values: Seq<u64>, k: int)
    requires
        0 <= k <= values.len(),
    ensures
        values_sum(values.take(k)) <= values_sum(values),
    decreases values.len() - k,
{
    if k < values.len() {
        lemma_values_sum_front(values, k + 1);
        assert(values.take(k + 1).drop_last() =~= values.take(k));
    } else {
        assert(values.take(k) =~= values);
    }
}

/// What a transfer brings and needs besides the bitcoin that funds it.
#[derive(Debug, Clone, Copy, PartialEq, Eq, Structural)]
pub struct TransferShape {
    /// The number of inputs that carry the assets.
    pub asset_inputs: usize,
    /// The bitcoin that those inputs hold, in satoshi.
    pub asset_input_total: u64,
    /// The number of outputs without the carrier output.
    pub regular_outputs: usize,
    /// The bitcoin that all outputs receive, in satoshi.
    pub output_total: u64,
    /// The length of the script of the carrier output.
    pub payload_len: usize,
}

/// How a transfer is funded.
#[derive(Debug, Clone, Copy, PartialEq, Eq, Structural)]
pub struct FundingPlan {
    /// The funding inputs: how many of the offered values, from the front.
    pub funding: Funding,
    /// The fee with the funding inputs.
    pub fee: u64,
    /// What the inputs hold beyond outputs and fee.
    pub change: u128,
    /// Whether the change is paid out: only above `CHANGE_FLOOR`.
    pub pays_change: bool,
}

/// The fee of a transfer with `funding_inputs` funding inputs.
pub open spec fn transfer_fee(shape: TransferShape, funding_inputs: int, rate: int) -> int {
    capped_fee(
        opreturn_weight(
            shape.asset_inputs + funding_inputs,
            shape.regular_outputs as int,
            shape.payload_len as int,
        ),
        rate,
    )
}

/// What the funding inputs have to bring: the fee without them, the
/// outputs and the reserve, less what the asset inputs hold; never below zero.
pub open spec fn funding_target(shape: TransferShape, rate: int) -> int {
    let need = transfer_fee(shape, 0, rate) + shape.output_total + FUNDING_RESERVE;
    if need > shape.asset_input_total {
        need - shape.asset_input_total
    } else {
        0
    }
}

/// The plan for a transfer of `shape`, funded from `values` at `rate`
/// up to `target`: `None` where one of the two failures occurs.
pub open spec fn planned(shape: TransferShape, values: Seq<u64>, rate: int, target: int) -> Option<
    FundingPlan,
> {
    let count = funded_count(values, target);
    let total = values_sum(values.take(count as int));
    let fee = transfer_fee(shape, count as int, rate);
    let have = shape.asset_input_total + total;
    let need = shape.output_total + fee;
    if values_sum(values) < target || have < need {
        None
    } else {
        Some(
            FundingPlan {
                funding: Funding { count: count as usize, total: total as u128 },
                fee: fee as u64,
                change: (have - need) as u128,
                pays_change: have - need > CHANGE_FLOOR,
            },
        )
    }
}

/// What is missing where a transfer cannot be planned: the target and what
/// the funding values hold, where they cannot reach it; else what outputs
/// and final fee come to and what all inputs hold.
pub open spec fn plan_error(shape: TransferShape, values: Seq<u64>, rate: int, target: int)
    -> FundingError {
    let count = funded_count(values, target);
    if values_sum(values) < target {
        FundingError::InsufficientFunds {
            required: target as u128,
            available: values_sum(values) as u128,
        }
    } else {
        FundingError::InsufficientFunds {
            required: (shape.output_total + transfer_fee(shape, count as int, rate)) as u128,
            available: (shape.asset_input_total + values_sum(values.take(count as int))) as u128,
        }
    }
}

/// Plans the funding of a transfer up to a target that the caller sets:
/// takes funding values from the front until they hold `target`; then
/// states the fee with the funding inputs and the change. Fails where the
/// values cannot reach the target, and where the inputs do not cover
/// outputs and final fee.
pub fn plan_with_target(shape: TransferShape, values: &[u64], fee_rate: u64, target: u128) -> (r:
    Result<FundingPlan, FundingError>)
    requires
        shape.asset_inputs + values.len() <= usize::MAX,
    ensures
        match r {
            Ok(plan) => planned(shape, values@, fee_rate as int, target as int) == Some(plan),
            Err(e) => planned(shape, values@, fee_rate as int, target as int) is None && e
                == plan_error(shape, values@, fee_rate as int, target as int),
        },
{
    let funding = match fund(values, target) {
        Ok(f) => f,
        Err(e) => {
            return Err(e);
        },
    };
    proof {
        lemma_values_sum_front(values@, funding.count as int);
        lemma_values_sum_bound(values@.take(funding.count as int));
        assert(funding.count * u64::MAX <= 0xffff_ffff_ffff_ffff * 0xffff_ffff_ffff_ffff)
            by (nonlinear_arith)
            requires
                funding.count <= 0xffff_ffff_ffff_ffff,
                u64::MAX == 0xffff_ffff_ffff_ffff,
        ;
    }
    let fee = calculate_fee_with_opreturn(
        shape.asset_inputs + funding.count,
        shape.regular_outputs,
        shape.payload_len,
        fee_rate,
    );
    let have: u128 = shape.asset_input_total as u128 + funding.total;
    let owed: u128 = shape.output_total as u128 + fee as u128;
    if have < owed {
        return Err(FundingError::InsufficientFunds { required: owed, available: have });
    }
    let change: u128 = have - owed;
    Ok(FundingPlan { funding, fee, change, pays_change: change > CHANGE_FLOOR as u128 })
}

/// Plans the funding of a transfer: the funding inputs have to bring,
/// with what the asset inputs hold, the outputs, the fee without funding
/// inputs and the reserve.
pub fn plan_funding(shape: TransferShape, values: &[u64], fee_rate: u64) -> (r: Result<
    FundingPlan,
    FundingError,
>)
    requires
        shape.asset_inputs + values.len() <= usize::MAX,
    ensures
        match r {
            Ok(plan) => planned(
                shape,
                values@,
                fee_rate as int,
                funding_target(shape, fee_rate as int),
            ) == Some(plan),
            Err(e) => planned(
                shape,
                values@,
                fee_rate as int,
                funding_target(shape, fee_rate as int),
            ) is None && e == plan_error(
                shape,
                values@,
                fee_rate as int,
                funding_target(shape, fee_rate as int),
            ),
        },
{
    let first_fee = calculate_fee_with_opreturn(
        shape.asset_inputs,
        shape.regular_outputs,
        shape.payload_len,
        fee_rate,
    );
    let need: u128 = first_fee as u128 + shape.output_total as u128 + FUNDING_RESERVE as u128;
    let target: u128 = if need > shape.asset_input_total as u128 {
        need - shape.asset_input_total as u128
    } else {
        0
    };
    plan_with_target(shape, values, fee_rate, target)
}

/// Values hold together no more than the largest value for each.
pub proof fn lemma_values_sum_bound(values: Seq<u64>)
    ensures
        0 <= values_sum(values) <= values.len() * u64::MAX,
    decreases values.len(),
{
    if values.len() > 0 {
        lemma_values_sum_bound(values.drop_last());
        assert((values.len() - 1) * u64::MAX + u64::MAX == values.len() * u64::MAX)
            by (nonlinear_arith);
    }
}

/// What is required of `asset`: the amount of its requirement, or nothing.
pub open spec fn required_of(reqs: Seq<Requirement>, asset: RuneId) -> int {
    match position_of(reqs, asset, reqs.len()) {
        Some(i) => reqs[i].amount as int,
        None => 0,
    }
}

/// What the requests ask of `asset` together.
pub open spec fn asked(requests: Seq<Requirement>, asset: RuneId) -> int
    decreases requests.len(),
{
    if requests.len() == 0 {
        0
    } else {
        asked(requests.drop_last(), asset) + if requests.last().asset == asset {
            requests.last().amount as int
        } else {
            0int
        }
    }
}

/// Where the first requirement for an asset stands depends on the assets alone.
proof fn lemma_position_by_assets(a: Seq<Requirement>, b: Seq<Requirement>, asset: RuneId, n: nat)
    requires
        n <= a.len(),
        n <= b.len(),
        forall|j: int| 0 <= j < n ==> (#[trigger] a[j]).asset == b[j].asset,
    ensures
        position_of(a, asset, n) == position_of(b, asset, n),
    decreases n,
{
    if n > 0 {
        lemma_position_by_assets(a, b, asset, (n - 1) as nat);
    }
}

/// The first requirement for an asset, where there is one, is for that asset.
proof fn lemma_position_some(reqs: Seq<Requirement>, asset: RuneId, n: nat)
    requires
        n <= reqs.len(),
    ensures
        position_of(reqs, asset, n) matches Some(i) ==> 0 <= i < n && reqs[i].asset == asset,
    decreases n,
{
    if n > 0 {
        lemma_position_some(reqs, asset, (n - 1) as nat);
    }
}

/// Adding an amount raises what is required of its asset by that amount,
/// and leaves what is required of every other asset.
pub proof fn lemma_with_amount(reqs: Seq<Requirement>, asset: RuneId, amount: u64, other: RuneId)
    requires
        distinct_assets(reqs),
        with_amount(reqs, asset, amount) is Some,
    ensures
        distinct_assets(with_amount(reqs, asset, amount).unwrap()),
        required_of(with_amount(reqs, asset, amount).unwrap(), other) == required_of(reqs, other)
            + if other == asset {
            amount as int
        } else {
            0int
        },
{
    let after = with_amount(reqs, asset, amount).unwrap();
    lemma_position_some(reqs, asset, reqs.len());
    lemma_position_some(reqs, other, reqs.len());
    match position_of(reqs, asset, reqs.len()) {
        Some(i) => {
            lemma_position_by_assets(reqs, after, other, reqs.len());
            assert forall|j: int, k: int| 0 <= j < k < after.len() implies after[j].asset
                != after[k].asset by {
                assert(reqs[j].asset != reqs[k].asset);
            }
            if other != asset {
                lemma_position_some(after, other, after.len());
            }
        },
        None => {
            lemma_position_none(reqs, asset, reqs.len());
            lemma_position_by_assets(reqs, after, other, reqs.len());
            assert forall|j: int, k: int| 0 <= j < k < after.len() implies after[j].asset
                != after[k].asset by {
                if k < reqs.len() {
                    assert(reqs[j].asset != reqs[k].asset);
                } else {
                    assert(after[j] == reqs[j]);
                }
            }
            if other == asset {
                lemma_position_of(after, asset, reqs.len() as int, after.len());
            }
        },
    }
}

/// What is required of each asset is what the requests ask of it together,
/// and no asset has two requirements.
pub proof fn lemma_summed_totals(requests: Seq<Requirement>, asset: RuneId)
    requires
        summed(requests) is Some,
    ensures
        distinct_assets(summed(requests).unwrap()),
        required_of(summed(requests).unwrap(), asset) == asked(requests, asset),
    decreases requests.len(),
{
    if requests.len() > 0 {
        let front = requests.drop_last();
        lemma_summed_totals(front, asset);
        lemma_with_amount(
            summed(front).unwrap(),
            requests.last().asset,
            requests.last().amount,
            asset,
        );
    }
}

/// What every output of a withdrawal that pays a recipient receives, in
/// satoshi: the dust threshold.
pub const RECIPIENT_VALUE: u64 = 330;

/// Whether `outputs` are the outputs of a withdrawal: first one to the
/// address that holds the assets, which receives what no edict allocates;
/// then one for each recipient, in their order; last the output that
/// carries `script` and receives nothing.
pub open spec fn is_withdrawal_layout(
    outputs: Seq<TransactionOutput>,
    home: Seq<char>,
    recipients: Seq<String>,
    script: Seq<u8>,
) -> bool {
    &&& outputs.len() == recipients.len() + 2
    &&& outputs[0].address@ == home
    &&& outputs[0].amount == RECIPIENT_VALUE
    &&& outputs[0].op_return is None
    &&& forall|i: int|
        0 <= i < recipients.len() ==> (#[trigger] outputs[i + 1]).address@ == recipients[i]@
            && outputs[i + 1].amount == RECIPIENT_VALUE && outputs[i + 1].op_return is None
    &&& outputs[recipients.len() as int + 1].address@ == home
    &&& outputs[recipients.len() as int + 1].amount == 0
    &&& outputs[recipients.len() as int + 1].op_return matches Some(carried) && carried@ == script
}

/// The outputs of a withdrawal: the output `i + 1` pays the recipient `i`,
/// as the edicts of the withdrawal number them.
pub fn withdrawal_outputs(home: &String, recipients: &Vec<String>, script: Vec<u8>) -> (outputs: Vec<
    TransactionOutput,
>)
    requires
        recipients.len() + 2 <= usize::MAX,
    ensures
        is_withdrawal_layout(outputs@, home@, recipients@, script@),
{
    let mut outputs: Vec<TransactionOutput> = Vec::new();
    outputs.push(
        TransactionOutput { address: home.clone(), amount: RECIPIENT_VALUE, op_return: None },
    );
    let mut i: usize = 0;
    while i < recipients.len()
        invariant
            i <= recipients.len(),
            outputs.len() == i + 1,
            outputs[0].address@ == home@,
            outputs[0].amount == RECIPIENT_VALUE,
            outputs[0].op_return is None,
            forall|j: int|
                0 <= j < i ==> (#[trigger] outputs[j + 1]).address@ == recipients[j]@ && outputs[j
                    + 1].amount == RECIPIENT_VALUE && outputs[j + 1].op_return is None,
        decreases recipients.len() - i,
    {
        outputs.push(
            TransactionOutput {
                address: recipients[i].clone(),
                amount: RECIPIENT_VALUE,
                op_return: None,
            },
        );
        i += 1;
    }
    outputs.push(TransactionOutput { address: home.clone(), amount: 0, op_return: Some(script) });
    outputs
}

/// The positions that the selections chose, one selection after the other.
pub open spec fn chosen_of(sels: Seq<AssetSelectionView>) -> Seq<usize>
    decreases sels.len(),
{
    if sels.len() == 0 {
        Seq::<usize>::empty()
    } else {
        chosen_of(sels.drop_last()) + sels.last().chosen
    }
}

/// The positions of all candidates that were chosen, in the order of the
/// selections.
pub fn chosen_positions(sels: &Vec<AssetSelection>) -> (positions: Vec<usize>)
    ensures
        positions@ == chosen_of(selection_views(sels@)),
{
    let ghost all = selection_views(sels@);
    let mut positions: Vec<usize> = Vec::new();
    let mut i: usize = 0;
    assert(all.take(0) =~= Seq::<AssetSelectionView>::empty());
    while i < sels.len()
        invariant
            i <= sels.len(),
            all == selection_views(sels@),
            positions@ == chosen_of(all.take(i as int)),
        decreases sels.len() - i,
    {
        proof {
            assert(all.take(i + 1).drop_last() =~= all.take(i as int));
            assert(all.take(i + 1).last() == sels@[i as int]@);
        }
        let ghost before = positions@;
        let chosen = &sels[i].chosen;
        let mut j: usize = 0;
        while j < chosen.len()
            invariant
                j <= chosen.len(),
                positions@ == before + chosen@.take(j as int),
            decreases chosen.len() - j,
        {
            positions.push(chosen[j]);
            j += 1;
            assert(positions@ =~= before + chosen@.take(j as int));
        }
        assert(chosen@.take(chosen@.len() as int) =~= chosen@);
        i += 1;
    }
    assert(all.take(all.len() as int) =~= all);
    positions
}

/// The bitcoin that the inputs hold together.
pub open spec fn inputs_total(inputs: Seq<TransactionInput>) -> int
    decreases inputs.len(),
{
    if inputs.len() == 0 {
        0
    } else {
        inputs_total(inputs.drop_last()) + inputs.last().amount
    }
}

/// The bitcoin that the outputs receive together.
pub open spec fn outputs_total(outputs: Seq<TransactionOutput>) -> int
    decreases outputs.len(),
{
    if outputs.len() == 0 {
        0
    } else {
        outputs_total(outputs.drop_last()) + outputs.last().amount
    }
}

/// What a transfer of these inputs and outputs brings and needs, with a
/// carrier script of `payload_len` bytes; `None` where a total exceeds 64
/// bits. Every output counts as a regular one, so that the fee allows for
/// one output more than the transfer has without its carrier output.
pub fn transfer_shape(
    inputs: &Vec<TransactionInput>,
    outputs: &Vec<TransactionOutput>,
    payload_len: usize,
) -> (r: Option<TransferShape>)
    ensures
        match r {
            Some(shape) => inputs_total(inputs@) <= u64::MAX && outputs_total(outputs@) <= u64::MAX
                && shape == (TransferShape {
                asset_inputs: inputs.len(),
                asset_input_total: inputs_total(inputs@) as u64,
                regular_outputs: outputs.len(),
                output_total: outputs_total(outputs@) as u64,
                payload_len,
            }),
            None => inputs_total(inputs@) > u64::MAX || outputs_total(outputs@) > u64::MAX,
        },
{
    let mut input_total: u128 = 0;
    let mut i: usize = 0;
    assert(inputs@.take(0) =~= Seq::<TransactionInput>::empty());
    while i < inputs.len()
        invariant
            i <= inputs.len(),
            input_total == inputs_total(inputs@.take(i as int)),
            input_total <= i * 0xffff_ffff_ffff_ffff,
        decreases inputs.len() - i,
    {
        proof {
            assert(inputs@.take(i + 1).drop_last() =~= inputs@.take(i as int));
            assert(inputs@.take(i + 1).last() == inputs@[i as int]);
        }
        input_total += inputs[i].amount as u128;
        i += 1;
    }
    assert(inputs@.take(inputs@.len() as int) =~= inputs@);
    let mut output_total: u128 = 0;
    let mut j: usize = 0;
    assert(outputs@.take(0) =~= Seq::<TransactionOutput>::empty());
    while j < outputs.len()
        invariant
            j <= outputs.len(),
            output_total == outputs_total(outputs@.take(j as int)),
            output_total <= j * 0xffff_ffff_ffff_ffff,
        decreases outputs.len() - j,
    {
        proof {
            assert(outputs@.take(j + 1).drop_last() =~= outputs@.take(j as int));
            assert(outputs@.take(j + 1).last() == outputs@[j as int]);
        }
        output_total += outputs[j].amount as u128;
        j += 1;
    }
    assert(outputs@.take(outputs@.len() as int) =~= outputs@);
    if input_total > u64::MAX as u128 || output_total > u64::MAX as u128 {
        None
    } else {
        Some(
            TransferShape {
                asset_inputs: inputs.len(),
                asset_input_total: input_total as u64,
                regular_outputs: outputs.len(),
                output_total: output_total as u64,
                payload_len,
            },
        )
    }
}

/// What the edicts move of `asset` together.
pub open spec fn moved(edicts: Seq<EdictInput>, asset: RuneId) -> int
    decreases edicts.len(),
{
    if edicts.len() == 0 {
        0
    } else {
        moved(edicts.drop_last(), asset) + if edicts.last().block == asset.block
            && edicts.last().tx == asset.tx {
            edicts.last().amount as int
        } else {
            0int
        }
    }
}

/// What the selections of `asset` chose together.
pub open spec fn selected_of(sels: Seq<AssetSelectionView>, asset: RuneId) -> int
    decreases sels.len(),
{
    if sels.len() == 0 {
        0
    } else {
        selected_of(sels.drop_last(), asset) + if sels.last().asset == asset {
            sels.last().selected as int
        } else {
            0int
        }
    }
}

/// Whether the selections are for the requirements, one for each in
/// their order, and each covers its requirement.
pub open spec fn selections_cover(sels: Seq<AssetSelectionView>, reqs: Seq<Requirement>) -> bool {
    &&& sels.len() == reqs.len()
    &&& forall|i: int|
        0 <= i < sels.len() ==> (#[trigger] sels[i]).asset == reqs[i].asset && sels[i].required
            == reqs[i].amount && sels[i].selected >= sels[i].required
}

/// Edicts behind edicts move what both move.
proof fn lemma_moved_add(a: Seq<EdictInput>, b: Seq<EdictInput>, asset: RuneId)
    ensures
        moved(a + b, asset) == moved(a, asset) + moved(b, asset),
    decreases b.len(),
{
    if b.len() == 0 {
        assert(a + b =~= a);
    } else {
        lemma_moved_add(a, b.drop_last(), asset);
        assert((a + b).drop_last() =~= a + b.drop_last());
    }
}

/// The edicts that pay the requests out move what the requests ask.
proof fn lemma_payout_moves(requests: Seq<Requirement>, asset: RuneId)
    ensures
        moved(payout_run(requests), asset) == asked(requests, asset),
    decreases requests.len(),
{
    if requests.len() > 0 {
        lemma_payout_moves(requests.drop_last(), asset);
        let run = payout_run(requests);
        if requests.last().amount != 0 {
            assert(run.drop_last() =~= payout_run(requests.drop_last()));
        }
    }
}

/// The edicts that return the change move what was chosen beyond the
/// requirements.
proof fn lemma_change_moves(
    sels: Seq<AssetSelectionView>,
    reqs: Seq<Requirement>,
    output: u32,
    asset: RuneId,
)
    requires
        selections_cover(sels, reqs),
    ensures
        moved(change_inputs(sels, output), asset) == selected_of(sels, asset) - asked(reqs, asset),
    decreases sels.len(),
{
    if sels.len() == 0 {
        assert(change_inputs(sels, output) =~= Seq::<EdictInput>::empty());
    } else {
        let front = sels.drop_last();
        let last = sels.last();
        assert(selections_cover(front, reqs.drop_last())) by {
            assert forall|i: int| 0 <= i < front.len() implies (#[trigger] front[i]).asset
                == reqs.drop_last()[i].asset && front[i].required == reqs.drop_last()[i].amount
                && front[i].selected >= front[i].required by {
                assert(front[i] == sels[i]);
            }
        }
        lemma_change_moves(front, reqs.drop_last(), output, asset);
        assert(sels[sels.len() - 1] == last);
        assert(reqs.last() == reqs[sels.len() - 1]);
        let run = change_inputs(sels, output);
        if last.selected > last.required {
            assert(run.drop_last() =~= change_inputs(front, output));
        } else {
            assert(run =~= change_inputs(front, output));
        }
    }
}

/// Where no asset has two requirements, what the requirements ask of an
/// asset is its one requirement.
proof fn lemma_asked_of_distinct(reqs: Seq<Requirement>, asset: RuneId)
    requires
        distinct_assets(reqs),
    ensures
        asked(reqs, asset) == required_of(reqs, asset),
    decreases reqs.len(),
{
    if reqs.len() > 0 {
        let front = reqs.drop_last();
        assert(distinct_assets(front)) by {
            assert forall|i: int, j: int| 0 <= i < j < front.len() implies front[i].asset
                != front[j].asset by {
                assert(reqs[i].asset != reqs[j].asset);
            }
        }
        lemma_asked_of_distinct(front, asset);
        lemma_position_by_assets(front, reqs, asset, front.len());
        lemma_position_some(front, asset, front.len());
        if position_of(front, asset, front.len()) is Some {
            let k = position_of(front, asset, front.len()).unwrap();
            assert(reqs[k].asset != reqs[reqs.len() - 1].asset);
            assert(front[k] == reqs[k]);
        }
    }
}

/// A withdrawal neither makes nor loses anything: of every asset, what
/// its edicts move, to the recipients and back as change, is what was
/// chosen of it.
pub proof fn lemma_withdrawal_conserves(
    requests: Seq<Requirement>,
    sels: Seq<AssetSelectionView>,
    output: u32,
    asset: RuneId,
)
    requires
        summed(requests) is Some,
        selections_cover(sels, summed(requests).unwrap()),
    ensures
        moved(payout_run(requests) + change_inputs(sels, output), asset) == selected_of(
            sels,
            asset,
        ),
{
    let reqs = summed(requests).unwrap();
    lemma_moved_add(payout_run(requests), change_inputs(sels, output), asset);
    lemma_payout_moves(requests, asset);
    lemma_change_moves(sels, reqs, output, asset);
    lemma_summed_totals(requests, asset);
    lemma_asked_of_distinct(reqs, asset);
}

/// Every edict that pays a request out moves an amount that is not zero,
/// to an output behind the first.
pub proof fn lemma_payouts_are_positive(requests: Seq<Requirement>)
    requires
        requests.len() < u32::MAX,
    ensures
        forall|i: int|
            0 <= i < payout_run(requests).len() ==> (#[trigger] payout_run(requests)[i]).amount > 0
                && 1 <= payout_run(requests)[i].output <= requests.len(),
        payout_run(requests).len() <= requests.len(),
    decreases requests.len(),
{
    if requests.len() > 0 {
        lemma_payouts_are_positive(requests.drop_last());
    }
}

/// No edict of a withdrawal moves the amount zero.
pub proof fn lemma_withdrawal_moves_something(
    requests: Seq<Requirement>,
    sels: Seq<AssetSelectionView>,
    output: u32,
)
    requires
        requests.len() < u32::MAX,
    ensures
        forall|i: int|
            0 <= i < (payout_run(requests) + change_inputs(sels, output)).len() ==> (
            #[trigger] (payout_run(requests) + change_inputs(sels, output))[i]).amount > 0,
{
    lemma_payouts_are_positive(requests);
    crate::selection::lemma_change_is_positive(sels, output);
    let all = payout_run(requests) + change_inputs(sels, output);
    assert forall|i: int| 0 <= i < all.len() implies (#[trigger] all[i]).amount > 0 by {
        if i >= payout_run(requests).len() {
            let k = i - payout_run(requests).len();
            assert(all[i] == change_inputs(sels, output)[k]);
            assert(change_run(sels, output)[k].amount > 0);
        } else {
            assert(all[i] == payout_run(requests)[i]);
        }
    }
}

} // verus!
