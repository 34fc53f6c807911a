//! Coin selection: for each asset that a transfer needs, the largest
//! candidates first until the needed amount is covered.

use crate::protostone::{Edict, RuneId};
use vstd::prelude::*;

verus! {

/// A spendable output as the selection sees it: the asset that it holds
/// and how much of it.
#[derive(Debug, Clone, Copy, PartialEq, Eq, Structural)]
pub struct Candidate {
    pub asset: RuneId,
    pub amount: u64,
}

/// An amount of one asset that a transfer needs.
#[derive(Debug, Clone, Copy, PartialEq, Eq, Structural)]
pub struct Requirement {
    pub asset: RuneId,
    pub amount: u64,
}

/// Why nothing was selected.
#[derive(Debug, Clone, Copy, PartialEq, Eq, Structural)]
pub enum SelectionError {
    /// The candidates of `asset` hold `available` together, less than `required`.
    InsufficientAsset { asset: RuneId, required: u64, available: u128 },
}

/// What was selected for one asset.
#[derive(Debug)]
pub struct AssetSelection {
    pub asset: RuneId,
    pub required: u64,
    /// What the chosen candidates hold together.
    pub selected: u128,
    /// The positions of the chosen candidates, in the order in which they were chosen.
    pub chosen: Vec<usize>,
}

/// A selection as a mathematical value.
pub struct AssetSelectionView {
    pub asset: RuneId,
    pub required: u64,
    pub selected: u128,
    pub chosen: Seq<usize>,
}

impl View for AssetSelection {
    type V = AssetSelectionView;

    open spec fn view(&self) -> AssetSelectionView {
        AssetSelectionView {
            asset: self.asset,
            required: self.required,
            selected: self.selected,
            chosen: self.chosen@,
        }
    }
}

impl AssetSelectionView {
    /// What the chosen candidates hold beyond what was required.
    pub open spec fn change(self) -> int {
        self.selected - self.required
    }
}

/// The positions among the first `n` candidates of those that hold `asset`, ascending.
pub open spec fn matching(cands: Seq<Candidate>, asset: RuneId, n: nat) -> Seq<usize>
    decreases n,
{
    if n == 0 {
        Seq::<usize>::empty()
    } else {
        let before = matching(cands, asset, (n - 1) as nat);
        if cands[n - 1].asset == asset {
            before.push((n - 1) as usize)
        } else {
            before
        }
    }
}

/// `order` with the position `i` put behind every position whose candidate
/// holds at least as much.
pub open spec fn placed(cands: Seq<Candidate>, order: Seq<usize>, i: usize) -> Seq<usize>
    decreases order.len(),
{
    if order.len() == 0 {
        seq![i]
    } else if cands[order.last() as int].amount >= cands[i as int].amount {
        order.push(i)
    } else {
        placed(cands, order.drop_last(), i).push(order.last())
    }
}

/// The positions of `pool` by amount, the largest first; among equal
/// amounts the order of `pool` stays.
pub open spec fn ranked(cands: Seq<Candidate>, pool: Seq<usize>) -> Seq<usize>
    decreases pool.len(),
{
    if pool.len() == 0 {
        pool
    } else {
        placed(cands, ranked(cands, pool.drop_last()), pool.last())
    }
}

/// What the candidates at `positions` hold together.
pub open spec fn amounts_sum(cands: Seq<Candidate>, positions: Seq<usize>) -> int
    decreases positions.len(),
{
    if positions.len() == 0 {
        0
    } else {
        amounts_sum(cands, positions.drop_last()) + cands[positions.last() as int].amount
    }
}

/// How many positions are taken from the front of `order` until what they
/// hold reaches `required`; all of them where it is never reached.
pub open spec fn taken(cands: Seq<Candidate>, order: Seq<usize>, required: int) -> nat
    decreases order.len(),
{
    if required <= 0 || order.len() == 0 {
        0
    } else {
        1 + taken(cands, order.drop_first(), required - cands[order[0] as int].amount)
    }
}

/// What all candidates of `asset` hold together.
pub open spec fn available(cands: Seq<Candidate>, asset: RuneId) -> int {
    amounts_sum(cands, matching(cands, asset, cands.len()))
}

/// The candidates of `asset` in the order in which they are considered.
pub open spec fn considered(cands: Seq<Candidate>, asset: RuneId) -> Seq<usize> {
    ranked(cands, matching(cands, asset, cands.len()))
}

/// The positions that the selection chooses for `required` units of `asset`.
pub open spec fn greedy_choice(cands: Seq<Candidate>, asset: RuneId, required: int) -> Seq<usize> {
    considered(cands, asset).take(taken(cands, considered(cands, asset), required) as int)
}

/// The selection for one requirement.
pub open spec fn selection_for(cands: Seq<Candidate>, req: Requirement) -> AssetSelectionView {
    let chosen = greedy_choice(cands, req.asset, req.amount as int);
    AssetSelectionView {
        asset: req.asset,
        required: req.amount,
        selected: amounts_sum(cands, chosen) as u128,
        chosen,
    }
}

/// The error for a requirement that the candidates cannot meet.
pub open spec fn shortfall(cands: Seq<Candidate>, req: Requirement) -> SelectionError {
    SelectionError::InsufficientAsset {
        asset: req.asset,
        required: req.amount,
        available: available(cands, req.asset) as u128,
    }
}

/// Whether every position is one of a candidate.
pub open spec fn all_valid(cands: Seq<Candidate>, positions: Seq<usize>) -> bool {
    forall|j: int| 0 <= j < positions.len() ==> (#[trigger] positions[j]) < cands.len()
}

/// Placing puts the position behind the last one that holds at least as much.
proof fn lemma_placed_at(cands: Seq<Candidate>, order: Seq<usize>, i: usize, j: int)
    requires
        0 <= j <= order.len(),
        forall|k: int|
            j <= k < order.len() ==> cands[#[trigger] order[k] as int].amount < cands[i as int].amount,
        j == 0 || cands[order[j - 1] as int].amount >= cands[i as int].amount,
    ensures
        placed(cands, order, i) == order.insert(j, i),
    decreases order.len() - j,
{
    if j == order.len() {
        if order.len() == 0 {
            assert(seq![i] =~= order.insert(j, i));
        } else {
            assert(order.push(i) =~= order.insert(j, i));
        }
    } else {
        let front = order.drop_last();
        assert(cands[order[order.len() - 1] as int].amount < cands[i as int].amount);
        lemma_placed_at(cands, front, i, j);
        assert(front.insert(j, i).push(order.last()) =~= order.insert(j, i));
    }
}

/// Placing keeps the positions valid and adds the amount of the new one.
pub proof fn lemma_placed(cands: Seq<Candidate>, order: Seq<usize>, i: usize)
    requires
        all_valid(cands, order),
        i < cands.len(),
    ensures
        all_valid(cands, placed(cands, order, i)),
        placed(cands, order, i).len() == order.len() + 1,
        amounts_sum(cands, placed(cands, order, i)) == amounts_sum(cands, order)
            + cands[i as int].amount,
    decreases order.len(),
{
    if order.len() == 0 {
        assert(seq![i].drop_last() =~= order);
    } else if cands[order.last() as int].amount >= cands[i as int].amount {
        assert(order.push(i).drop_last() =~= order);
    } else {
        let front = order.drop_last();
        assert(all_valid(cands, front)) by {
            assert forall|j: int| 0 <= j < front.len() implies (#[trigger] front[j])
                < cands.len() by {
                assert(front[j] == order[j]);
            }
        }
        lemma_placed(cands, front, i);
        let mid = placed(cands, front, i);
        assert(mid.push(order.last()).drop_last() =~= mid);
        assert(order[order.len() - 1] < cands.len());
    }
}

/// Ranking keeps the positions and what they hold together.
pub proof fn lemma_ranked(cands: Seq<Candidate>, pool: Seq<usize>)
    requires
        all_valid(cands, pool),
    ensures
        all_valid(cands, ranked(cands, pool)),
        ranked(cands, pool).len() == pool.len(),
        amounts_sum(cands, ranked(cands, pool)) == amounts_sum(cands, pool),
    decreases pool.len(),
{
    if pool.len() > 0 {
        let front = pool.drop_last();
        assert(all_valid(cands, front)) by {
            assert forall|j: int| 0 <= j < front.len() implies (#[trigger] front[j])
                < cands.len() by {
                assert(front[j] == pool[j]);
            }
        }
        assert(pool[pool.len() - 1] < cands.len());
        lemma_ranked(cands, front);
        lemma_placed(cands, ranked(cands, front), pool.last());
    }
}

/// The positions that hold an asset are positions of candidates.
pub proof fn lemma_matching_valid(cands: Seq<Candidate>, asset: RuneId, n: nat)
    requires
        n <= cands.len() <= usize::MAX,
    ensures
        all_valid(cands, matching(cands, asset, n)),
        matching(cands, asset, n).len() <= n,
        forall|j: int|
            0 <= j < matching(cands, asset, n).len() ==> cands[#[trigger] matching(
                cands,
                asset,
                n,
            )[j] as int].asset == asset,
    decreases n,
{
    if n > 0 {
        lemma_matching_valid(cands, asset, (n - 1) as nat);
    }
}

/// The positions of the candidates that hold `asset`.
fn pool_of(cands: &[Candidate], asset: RuneId) -> (pool: Vec<usize>)
    ensures
        pool@ == matching(cands@, asset, cands@.len()),
{
    let mut pool: Vec<usize> = Vec::new();
    let mut i: usize = 0;
    while i < cands.len()
        invariant
            i <= cands.len(),
            pool@ == matching(cands@, asset, i as nat),
        decreases cands.len() - i,
    {
        if cands[i].asset.block == asset.block && cands[i].asset.tx == asset.tx {
            pool.push(i);
        }
        i += 1;
    }
    pool
}

/// The positions of `pool` by amount, the largest first.
fn rank(cands: &[Candidate], pool: &Vec<usize>) -> (order: Vec<usize>)
    requires
        all_valid(cands@, pool@),
    ensures
        order@ == ranked(cands@, pool@),
{
    let mut order: Vec<usize> = Vec::new();
    let mut i: usize = 0;
    assert(pool@.take(0) =~= Seq::<usize>::empty());
    while i < pool.len()
        invariant
            i <= pool.len(),
            all_valid(cands@, pool@),
            order@ == ranked(cands@, pool@.take(i as int)),
            all_valid(cands@, order@),
        decreases pool.len() - i,
    {
        let p = pool[i];
        let amount = cands[p].amount;
        let mut j: usize = order.len();
        while j > 0 && cands[order[j - 1]].amount < amount
            invariant
                j <= order.len(),
                all_valid(cands@, order@),
                p < cands.len(),
                amount == cands[p as int].amount,
                forall|k: int|
                    j <= k < order.len() ==> cands[#[trigger] order[k] as int].amount < amount,
            decreases j,
        {
            j -= 1;
        }
        proof {
            lemma_placed_at(cands@, order@, p, j as int);
            lemma_placed(cands@, order@, p);
            assert(pool@.take(i + 1).drop_last() =~= pool@.take(i as int));
            assert(pool@.take(i + 1).last() == p);
        }
        order.insert(j, p);
        i += 1;
    }
    assert(pool@.take(pool@.len() as int) =~= pool@);
    order
}

/// What the candidates at `positions` hold together.
fn sum_amounts(cands: &[Candidate], positions: &Vec<usize>) -> (total: u128)
    requires
        all_valid(cands@, positions@),
    ensures
        total == amounts_sum(cands@, positions@),
{
    let mut total: u128 = 0;
    let mut i: usize = 0;
    assert(positions@.take(0) =~= Seq::<usize>::empty());
    while i < positions.len()
        invariant
            i <= positions.len(),
            all_valid(cands@, positions@),
            total == amounts_sum(cands@, positions@.take(i as int)),
            total <= i * 0xffff_ffff_ffff_ffff,
        decreases positions.len() - i,
    {
        proof {
            assert(positions@.take(i + 1).drop_last() =~= positions@.take(i as int));
            assert(positions@.take(i + 1).last() == positions@[i as int]);
        }
        total += cands[positions[i]].amount as u128;
        i += 1;
    }
    assert(positions@.take(positions@.len() as int) =~= positions@);
    total
}

/// A front part of `order` holds no more than all of it.
pub proof fn lemma_sum_of_front(cands: Seq<Candidate>, order: Seq<usize>, k: int)
    requires
        0 <= k <= order.len(),
    ensures
        amounts_sum(cands, order.take(k)) <= amounts_sum(cands, order),
    decreases order.len() - k,
{
    if k < order.len() {
        lemma_sum_of_front(cands, order, k + 1);
        assert(order.take(k + 1).drop_last() =~= order.take(k));
    } else {
        assert(order.take(k) =~= order);
    }
}

/// What all candidates of `asset` hold together.
pub fn available_amount(cands: &[Candidate], asset: RuneId) -> (total: u128)
    ensures
        total == available(cands@, asset),
{
    let pool = pool_of(cands, asset);
    let count: usize = cands.len();
    proof {
        assert(cands@.len() == count);
        lemma_matching_valid(cands@, asset, cands@.len());
    }
    sum_amounts(cands, &pool)
}

/// Selects candidates for `required` units of `asset`: those that hold
/// the asset, the largest first and among equal ones the earlier first,
/// until what was taken reaches `required`. Fails, with what is available,
/// where all of them together hold less.
pub fn select_for_asset(cands: &[Candidate], req: Requirement) -> (r: Result<
    AssetSelection,
    SelectionError,
>)
    ensures
        match r {
            Ok(sel) => {
                &&& available(cands@, req.asset) >= req.amount
                &&& sel@ == selection_for(cands@, req)
                &&& sel.selected == amounts_sum(cands@, sel.chosen@)
                &&& sel.selected >= req.amount
                &&& all_valid(cands@, sel.chosen@)
            },
            Err(e) => available(cands@, req.asset) < req.amount && e == shortfall(cands@, req),
        },
{
    let pool = pool_of(cands, req.asset);
    let count: usize = cands.len();
    proof {
        assert(cands@.len() == count);
        lemma_matching_valid(cands@, req.asset, cands@.len());
        lemma_ranked(cands@, pool@);
    }
    let total = sum_amounts(cands, &pool);
    if total < req.amount as u128 {
        return Err(
            SelectionError::InsufficientAsset {
                asset: req.asset,
                required: req.amount,
                available: total,
            },
        );
    }
    let order = rank(cands, &pool);
    let mut chosen: Vec<usize> = Vec::new();
    let mut selected: u128 = 0;
    let mut k: usize = 0;
    proof {
        assert(order@.take(0) =~= Seq::<usize>::empty());
        assert(order@.skip(0) =~= order@);
    }
    while k < order.len() && selected < req.amount as u128
        invariant
            k <= order.len(),
            all_valid(cands@, order@),
            chosen@ == order@.take(k as int),
            selected == amounts_sum(cands@, order@.take(k as int)),
            selected <= k * 0xffff_ffff_ffff_ffff,
            k + taken(cands@, order@.skip(k as int), req.amount - selected) == taken(
                cands@,
                order@,
                req.amount as int,
            ),
        decreases order.len() - k,
    {
        let p = order[k];
        proof {
            assert(order@.take(k + 1).drop_last() =~= order@.take(k as int));
            assert(order@.take(k + 1).last() == p);
            assert(order@.skip(k as int)[0] == p);
            assert(order@.skip(k as int).drop_first() =~= order@.skip(k + 1));
        }
        chosen.push(p);
        selected += cands[p].amount as u128;
        k += 1;
        assert(chosen@ =~= order@.take(k as int));
    }
    proof {
        if k == order.len() {
            assert(order@.skip(k as int) =~= Seq::<usize>::empty());
            assert(order@.take(k as int) =~= order@);
        }
        assert(k == taken(cands@, order@, req.amount as int));
        lemma_sum_of_front(cands@, order@, k as int);
        assert(all_valid(cands@, chosen@)) by {
            assert forall|j: int| 0 <= j < chosen@.len() implies (#[trigger] chosen@[j])
                < cands@.len() by {
                assert(chosen@[j] == order@[j]);
            }
        }
    }
    Ok(AssetSelection { asset: req.asset, required: req.amount, selected, chosen })
}

/// The first requirement from `from` on that the candidates cannot meet.
pub open spec fn first_short(cands: Seq<Candidate>, reqs: Seq<Requirement>, from: int) -> Option<
    int,
>
    decreases reqs.len() - from,
{
    if from < 0 || from >= reqs.len() {
        None
    } else if available(cands, reqs[from].asset) < reqs[from].amount {
        Some(from)
    } else {
        first_short(cands, reqs, from + 1)
    }
}

/// The selections of a list, each as a mathematical value.
pub open spec fn selection_views(sels: Seq<AssetSelection>) -> Seq<AssetSelectionView> {
    sels.map_values(|s: AssetSelection| s@)
}

/// Selects candidates for every requirement, each asset by itself. Where
/// the candidates cannot meet a requirement nothing is selected, and the
/// error names the first such requirement.
pub fn select_coins(cands: &[Candidate], reqs: &Vec<Requirement>) -> (r: Result<
    Vec<AssetSelection>,
    SelectionError,
>)
    ensures
        match r {
            Ok(sels) => {
                &&& first_short(cands@, reqs@, 0) is None
                &&& sels.len() == reqs.len()
                &&& forall|i: int|
                    0 <= i < reqs.len() ==> (#[trigger] sels[i])@ == selection_for(
                        cands@,
                        reqs[i],
                    )
                &&& forall|i: int|
                    0 <= i < reqs.len() ==> (#[trigger] sels[i]).selected >= reqs[i].amount
            },
            Err(e) => first_short(cands@, reqs@, 0) matches Some(i) && e == shortfall(
                cands@,
                reqs[i],
            ),
        },
{
    let mut sels: Vec<AssetSelection> = Vec::new();
    let mut i: usize = 0;
    while i < reqs.len()
        invariant
            i <= reqs.len(),
            sels.len() == i,
            first_short(cands@, reqs@, 0) == first_short(cands@, reqs@, i as int),
            forall|j: int| 0 <= j < i ==> (#[trigger] sels[j])@ == selection_for(cands@, reqs[j]),
            forall|j: int| 0 <= j < i ==> (#[trigger] sels[j]).selected >= reqs[j].amount,
        decreases reqs.len() - i,
    {
        match select_for_asset(cands, reqs[i]) {
            Ok(sel) => {
                sels.push(sel);
            },
            Err(e) => {
                return Err(e);
            },
        }
        i += 1;
    }
    Ok(sels)
}

/// The edicts that return the change: for each selection that holds more
/// than was required, the difference, sent to `output`.
pub open spec fn change_run(sels: Seq<AssetSelectionView>, output: u32) -> Seq<Edict>
    decreases sels.len(),
{
    if sels.len() == 0 {
        Seq::<Edict>::empty()
    } else {
        let last = sels.last();
        let before = change_run(sels.drop_last(), output);
        if last.selected > last.required {
            before.push(Edict { id: last.asset, amount: (last.selected - last.required) as u128, output })
        } else {
            before
        }
    }
}

/// The edicts that send what was selected beyond the requirement back to
/// `output`. A selection without change gives no edict.
pub fn change_edicts(sels: &Vec<AssetSelection>, output: u32) -> (edicts: Vec<Edict>)
    ensures
        edicts@ == change_run(selection_views(sels@), output),
{
    let ghost all = selection_views(sels@);
    let mut edicts: Vec<Edict> = Vec::new();
    let mut i: usize = 0;
    assert(all.take(0) =~= Seq::<AssetSelectionView>::empty());
    while i < sels.len()
        invariant
            i <= sels.len(),
            all == selection_views(sels@),
            edicts@ == change_run(all.take(i as int), output),
        decreases sels.len() - i,
    {
        proof {
            assert(all.take(i + 1).drop_last() =~= all.take(i as int));
            assert(all.take(i + 1).last() == sels@[i as int]@);
        }
        let sel = &sels[i];
        if sel.selected > sel.required as u128 {
            edicts.push(
                Edict { id: sel.asset, amount: sel.selected - sel.required as u128, output },
            );
        }
        i += 1;
    }
    assert(all.take(all.len() as int) =~= all);
    edicts
}

/// What positions hold together, taken from the first position.
pub proof fn lemma_sum_front(cands: Seq<Candidate>, order: Seq<usize>)
    requires
        order.len() > 0,
    ensures
        amounts_sum(cands, order) == cands[order[0] as int].amount + amounts_sum(
            cands,
            order.drop_first(),
        ),
    decreases order.len(),
{
    if order.len() == 1 {
        assert(order.drop_last() =~= Seq::<usize>::empty());
        assert(order.drop_first() =~= Seq::<usize>::empty());
    } else {
        let front = order.drop_last();
        lemma_sum_front(cands, front);
        assert(front.drop_first() =~= order.drop_first().drop_last());
        assert(order.drop_first().last() == order.last());
    }
}

/// Taking from the front stops as soon as the requirement is covered:
/// what was taken covers it where all together cover it, and without the
/// last one taken it is not covered.
pub proof fn lemma_taken(cands: Seq<Candidate>, order: Seq<usize>, required: int)
    ensures
        taken(cands, order, required) <= order.len(),
        amounts_sum(cands, order) >= required ==> amounts_sum(
            cands,
            order.take(taken(cands, order, required) as int),
        ) >= required,
        taken(cands, order, required) > 0 ==> amounts_sum(
            cands,
            order.take(taken(cands, order, required) - 1),
        ) < required,
    decreases order.len(),
{
    let k = taken(cands, order, required);
    if required <= 0 || order.len() == 0 {
        assert(order.take(0) =~= Seq::<usize>::empty());
    } else {
        let rest = order.drop_first();
        let first = cands[order[0] as int].amount as int;
        lemma_taken(cands, rest, required - first);
        let j = taken(cands, rest, required - first);
        lemma_sum_front(cands, order);
        lemma_sum_front(cands, order.take(k as int));
        assert(order.take(k as int).drop_first() =~= rest.take(j as int));
        if j > 0 {
            lemma_sum_front(cands, order.take(k - 1));
            assert(order.take(k - 1).drop_first() =~= rest.take(j - 1));
        } else {
            assert(order.take(0) =~= Seq::<usize>::empty());
        }
    }
}

/// Selection succeeds exactly where the candidates of the asset hold
/// enough; what is then chosen covers the requirement, and the change is
/// what it holds beyond the requirement.
pub proof fn lemma_selection_is_sufficient(cands: Seq<Candidate>, req: Requirement)
    requires
        cands.len() <= usize::MAX,
        available(cands, req.asset) >= req.amount,
    ensures
        amounts_sum(cands, greedy_choice(cands, req.asset, req.amount as int)) >= req.amount,
        amounts_sum(cands, greedy_choice(cands, req.asset, req.amount as int)) <= available(
            cands,
            req.asset,
        ),
        selection_for(cands, req).change() == amounts_sum(
            cands,
            greedy_choice(cands, req.asset, req.amount as int),
        ) - req.amount,
{
    let pool = matching(cands, req.asset, cands.len());
    let order = considered(cands, req.asset);
    lemma_matching_valid(cands, req.asset, cands.len());
    lemma_ranked(cands, pool);
    lemma_taken(cands, order, req.amount as int);
    let k = taken(cands, order, req.amount as int);
    lemma_sum_of_front(cands, order, k as int);
    lemma_available_bound(cands, req.asset);
}

/// What the candidates of one asset hold together fits 128 bits.
pub proof fn lemma_available_bound(cands: Seq<Candidate>, asset: RuneId)
    requires
        cands.len() <= usize::MAX,
    ensures
        0 <= available(cands, asset) <= cands.len() * u64::MAX,
        available(cands, asset) <= u128::MAX,
{
    let pool = matching(cands, asset, cands.len());
    lemma_matching_valid(cands, asset, cands.len());
    lemma_sum_bound(cands, pool);
    assert(pool.len() * u64::MAX <= cands.len() * u64::MAX) by (nonlinear_arith)
        requires
            pool.len() <= cands.len(),
    ;
    assert(cands.len() * u64::MAX <= u128::MAX) by (nonlinear_arith)
        requires
            cands.len() <= usize::MAX,
            usize::MAX <= u64::MAX,
    ;
}

/// Positions hold together no more than the largest amount for each.
pub proof fn lemma_sum_bound(cands: Seq<Candidate>, positions: Seq<usize>)
    ensures
        0 <= amounts_sum(cands, positions) <= positions.len() * u64::MAX,
    decreases positions.len(),
{
    if positions.len() > 0 {
        lemma_sum_bound(cands, positions.drop_last());
        assert((positions.len() - 1) * u64::MAX + u64::MAX == positions.len() * u64::MAX)
            by (nonlinear_arith);
    }
}

/// All positions of `count` candidates, ascending.
pub open spec fn all_positions(count: nat) -> Seq<usize> {
    Seq::new(count, |i: int| i as usize)
}

/// The positions of all candidates by amount, the largest first; among
/// equal amounts the earlier candidate first.
pub fn order_by_amount(cands: &[Candidate]) -> (order: Vec<usize>)
    ensures
        order@ == ranked(cands@, all_positions(cands@.len())),
{
    let mut pool: Vec<usize> = Vec::new();
    let mut i: usize = 0;
    while i < cands.len()
        invariant
            i <= cands.len(),
            pool@ == all_positions(i as nat),
        decreases cands.len() - i,
    {
        pool.push(i);
        i += 1;
        assert(pool@ =~= all_positions(i as nat));
    }
    rank(cands, &pool)
}

/// Whether the positions are positions of candidates of `asset`, none of
/// them twice.
pub open spec fn sound(cands: Seq<Candidate>, positions: Seq<usize>, asset: RuneId) -> bool {
    &&& forall|j: int|
        0 <= j < positions.len() ==> (#[trigger] positions[j]) < cands.len()
            && cands[positions[j] as int].asset == asset
    &&& forall|j: int, k: int|
        0 <= j < k < positions.len() ==> #[trigger] positions[j] != #[trigger] positions[k]
}

/// Placing a position is inserting it somewhere.
proof fn lemma_placed_is_insert(cands: Seq<Candidate>, order: Seq<usize>, i: usize) -> (j: int)
    ensures
        0 <= j <= order.len(),
        placed(cands, order, i) == order.insert(j, i),
    decreases order.len(),
{
    if order.len() == 0 {
        assert(seq![i] =~= order.insert(0, i));
        0
    } else if cands[order.last() as int].amount >= cands[i as int].amount {
        assert(order.push(i) =~= order.insert(order.len() as int, i));
        order.len() as int
    } else {
        let front = order.drop_last();
        let j = lemma_placed_is_insert(cands, front, i);
        assert(front.insert(j, i).push(order.last()) =~= order.insert(j, i));
        j
    }
}

/// Placing a new position among sound ones leaves them sound.
proof fn lemma_placed_sound(cands: Seq<Candidate>, order: Seq<usize>, i: usize, asset: RuneId)
    requires
        sound(cands, order, asset),
        i < cands.len(),
        cands[i as int].asset == asset,
        !order.contains(i),
    ensures
        sound(cands, placed(cands, order, i), asset),
        forall|x: usize|
            #[trigger] placed(cands, order, i).contains(x) ==> order.contains(x) || x == i,
{
    let at = lemma_placed_is_insert(cands, order, i);
    let after = order.insert(at, i);
    assert forall|j: int| 0 <= j < after.len() implies (#[trigger] after[j]) < cands.len()
        && cands[after[j] as int].asset == asset by {
        if j < at {
            assert(after[j] == order[j]);
        } else if j > at {
            assert(after[j] == order[j - 1]);
        }
    }
    assert forall|j: int, k: int| 0 <= j < k < after.len() implies #[trigger] after[j]
        != #[trigger] after[k] by {
        let a = if j < at {
            j
        } else {
            j - 1
        };
        let b = if k < at {
            k
        } else {
            k - 1
        };
        if j != at && k != at {
            assert(after[j] == order[a]);
            assert(after[k] == order[b]);
        } else if j == at {
            assert(after[k] == order[b]);
            assert(order.contains(order[b]));
        } else {
            assert(after[j] == order[a]);
            assert(order.contains(order[a]));
        }
    }
    assert forall|x: usize| #[trigger] after.contains(x) implies order.contains(x) || x == i by {
        let j = choose|j: int| 0 <= j < after.len() && after[j] == x;
        if j < at {
            assert(after[j] == order[j]);
        } else if j > at {
            assert(after[j] == order[j - 1]);
        }
    }
}

/// Ranking sound positions leaves them sound.
proof fn lemma_ranked_sound(cands: Seq<Candidate>, pool: Seq<usize>, asset: RuneId)
    requires
        sound(cands, pool, asset),
    ensures
        sound(cands, ranked(cands, pool), asset),
        forall|x: usize| #[trigger] ranked(cands, pool).contains(x) ==> pool.contains(x),
    decreases pool.len(),
{
    if pool.len() > 0 {
        let front = pool.drop_last();
        let last = pool.last();
        assert(sound(cands, front, asset)) by {
            assert forall|j: int| 0 <= j < front.len() implies (#[trigger] front[j]) < cands.len()
                && cands[front[j] as int].asset == asset by {
                assert(front[j] == pool[j]);
            }
            assert forall|j: int, k: int| 0 <= j < k < front.len() implies #[trigger] front[j]
                != #[trigger] front[k] by {
                assert(front[j] == pool[j] && front[k] == pool[k]);
            }
        }
        lemma_ranked_sound(cands, front, asset);
        let sorted = ranked(cands, front);
        assert(pool[pool.len() - 1] == last);
        assert(!front.contains(last)) by {
            if front.contains(last) {
                let j = choose|j: int| 0 <= j < front.len() && front[j] == last;
                assert(pool[j] == front[j]);
            }
        }
        assert(!sorted.contains(last));
        lemma_placed_sound(cands, sorted, last, asset);
        assert forall|x: usize| #[trigger] ranked(cands, pool).contains(x) implies pool.contains(
            x,
        ) by {
            if x == last {
            } else {
                assert(sorted.contains(x));
                assert(front.contains(x));
                let j = choose|j: int| 0 <= j < front.len() && front[j] == x;
                assert(pool[j] == x);
            }
        }
    }
}

/// The positions that hold an asset are sound, and ascending.
proof fn lemma_matching_sound(cands: Seq<Candidate>, asset: RuneId, n: nat)
    requires
        n <= cands.len() <= usize::MAX,
    ensures
        sound(cands, matching(cands, asset, n), asset),
        forall|j: int|
            0 <= j < matching(cands, asset, n).len() ==> (#[trigger] matching(cands, asset, n)[j])
                < n,
    decreases n,
{
    if n > 0 {
        lemma_matching_sound(cands, asset, (n - 1) as nat);
    }
}

/// What is chosen for an asset are candidates of that asset, and none of
/// them is chosen twice.
pub proof fn lemma_choice_is_sound(cands: Seq<Candidate>, asset: RuneId, required: int)
    requires
        cands.len() <= usize::MAX,
    ensures
        sound(cands, greedy_choice(cands, asset, required), asset),
{
    let pool = matching(cands, asset, cands.len());
    let order = considered(cands, asset);
    lemma_matching_sound(cands, asset, cands.len());
    lemma_ranked_sound(cands, pool, asset);
    lemma_taken(cands, order, required);
    let k = taken(cands, order, required) as int;
    let chosen = order.take(k);
    assert forall|j: int| 0 <= j < chosen.len() implies (#[trigger] chosen[j]) < cands.len()
        && cands[chosen[j] as int].asset == asset by {
        assert(chosen[j] == order[j]);
    }
    assert forall|j: int, l: int| 0 <= j < l < chosen.len() implies #[trigger] chosen[j]
        != #[trigger] chosen[l] by {
        assert(chosen[j] == order[j] && chosen[l] == order[l]);
    }
}

/// Every edict that returns change moves an amount that is not zero.
pub proof fn lemma_change_is_positive(sels: Seq<AssetSelectionView>, output: u32)
    ensures
        forall|i: int|
            0 <= i < change_run(sels, output).len() ==> (#[trigger] change_run(
                sels,
                output,
            )[i]).amount > 0 && change_run(sels, output)[i].output == output,
        change_run(sels, output).len() <= sels.len(),
    decreases sels.len(),
{
    if sels.len() > 0 {
        lemma_change_is_positive(sels.drop_last(), output);
    }
}

/// Whether the positions stand by amount, the largest first.
pub open spec fn is_descending(cands: Seq<Candidate>, order: Seq<usize>) -> bool {
    forall|i: int, j: int|
        0 <= i < j < order.len() ==> cands[order[i] as int].amount >= cands[order[j] as int].amount
}

/// Whether no position occurs twice.
pub open spec fn is_distinct(positions: Seq<usize>) -> bool {
    forall|j: int, k: int|
        0 <= j < k < positions.len() ==> #[trigger] positions[j] != #[trigger] positions[k]
}

/// Placing keeps the positions and adds the new one.
proof fn lemma_placed_contains(cands: Seq<Candidate>, order: Seq<usize>, i: usize)
    ensures
        forall|x: usize|
            #[trigger] placed(cands, order, i).contains(x) <==> order.contains(x) || x == i,
{
    let at = lemma_placed_is_insert(cands, order, i);
    let after = order.insert(at, i);
    assert forall|x: usize| #[trigger] after.contains(x) <==> order.contains(x) || x == i by {
        if after.contains(x) {
            let j = choose|j: int| 0 <= j < after.len() && after[j] == x;
            if j < at {
                assert(order[j] == x);
            } else if j > at {
                assert(order[j - 1] == x);
            }
        }
        if order.contains(x) {
            let j = choose|j: int| 0 <= j < order.len() && order[j] == x;
            if j < at {
                assert(after[j] == x);
            } else {
                assert(after[j + 1] == x);
            }
        }
        if x == i {
            assert(after[at] == x);
        }
    }
}

/// Placing among positions that stand by amount leaves them so.
proof fn lemma_placed_descending(cands: Seq<Candidate>, order: Seq<usize>, i: usize)
    requires
        is_descending(cands, order),
    ensures
        is_descending(cands, placed(cands, order, i)),
    decreases order.len(),
{
    if order.len() == 0 {
    } else if cands[order.last() as int].amount >= cands[i as int].amount {
        let longer = order.push(i);
        assert forall|a: int, b: int| 0 <= a < b < longer.len() implies cands[longer[a] as int].amount
            >= cands[longer[b] as int].amount by {
            if b == order.len() {
                if a < order.len() - 1 {
                    assert(cands[order[a] as int].amount >= cands[order[order.len() - 1] as int].amount);
                }
            }
        }
    } else {
        let front = order.drop_last();
        let last = order.last();
        assert(is_descending(cands, front)) by {
            assert forall|a: int, b: int| 0 <= a < b < front.len() implies cands[front[a] as int].amount
                >= cands[front[b] as int].amount by {
                assert(front[a] == order[a] && front[b] == order[b]);
            }
        }
        lemma_placed_descending(cands, front, i);
        lemma_placed_contains(cands, front, i);
        let mid = placed(cands, front, i);
        let longer = mid.push(last);
        assert forall|a: int, b: int| 0 <= a < b < longer.len() implies cands[longer[a] as int].amount
            >= cands[longer[b] as int].amount by {
            if b == mid.len() {
                assert(mid.contains(mid[a]));
                if mid[a] != i {
                    let k = choose|k: int| 0 <= k < front.len() && front[k] == mid[a];
                    assert(cands[order[k] as int].amount >= cands[order[order.len() - 1] as int].amount);
                }
            }
        }
    }
}

/// Ranking gives the same positions, by amount.
proof fn lemma_ranked_descending(cands: Seq<Candidate>, pool: Seq<usize>)
    ensures
        is_descending(cands, ranked(cands, pool)),
        forall|x: usize| #[trigger] ranked(cands, pool).contains(x) <==> pool.contains(x),
    decreases pool.len(),
{
    if pool.len() > 0 {
        let front = pool.drop_last();
        let last = pool.last();
        lemma_ranked_descending(cands, front);
        lemma_placed_descending(cands, ranked(cands, front), last);
        lemma_placed_contains(cands, ranked(cands, front), last);
        assert forall|x: usize| #[trigger] ranked(cands, pool).contains(x) <==> pool.contains(
            x,
        ) by {
            if pool.contains(x) {
                let j = choose|j: int| 0 <= j < pool.len() && pool[j] == x;
                if j < front.len() {
                    assert(front[j] == x);
                    assert(front.contains(x));
                }
            }
            if front.contains(x) {
                let j = choose|j: int| 0 <= j < front.len() && front[j] == x;
                assert(pool[j] == x);
            }
            assert(pool[pool.len() - 1] == last);
        }
    }
}

/// Every candidate of an asset is among the positions that hold it.
proof fn lemma_matching_contains(cands: Seq<Candidate>, asset: RuneId, n: nat, p: usize)
    requires
        n <= cands.len() <= usize::MAX,
        p < n,
        cands[p as int].asset == asset,
    ensures
        matching(cands, asset, n).contains(p),
    decreases n,
{
    let all = matching(cands, asset, n);
    let before = matching(cands, asset, (n - 1) as nat);
    if p == n - 1 {
        assert(all[all.len() - 1] == p);
    } else {
        lemma_matching_contains(cands, asset, (n - 1) as nat, p);
        let j = choose|j: int| 0 <= j < before.len() && before[j] == p;
        assert(all[j] == p);
    }
}

/// What positions hold together, with one of them taken out.
proof fn lemma_sum_remove(cands: Seq<Candidate>, positions: Seq<usize>, at: int)
    requires
        0 <= at < positions.len(),
    ensures
        amounts_sum(cands, positions) == amounts_sum(cands, positions.remove(at))
            + cands[positions[at] as int].amount,
    decreases positions.len(),
{
    let rest = positions.remove(at);
    if at == positions.len() - 1 {
        assert(rest =~= positions.drop_last());
    } else {
        lemma_sum_remove(cands, positions.drop_last(), at);
        assert(rest.drop_last() =~= positions.drop_last().remove(at));
        assert(rest.last() == positions.last());
    }
}

/// Of positions that stand by amount, the first ones hold at least as
/// much as any as many others of them.
proof fn lemma_front_holds_most(cands: Seq<Candidate>, order: Seq<usize>, other: Seq<usize>)
    requires
        is_descending(cands, order),
        is_distinct(order),
        is_distinct(other),
        forall|j: int| 0 <= j < other.len() ==> order.contains(#[trigger] other[j]),
    ensures
        other.len() <= order.len(),
        amounts_sum(cands, other) <= amounts_sum(cands, order.take(other.len() as int)),
    decreases order.len(),
{
    if order.len() == 0 {
        if other.len() > 0 {
            assert(order.contains(other[0]));
        }
        assert(order.take(0) =~= order);
    } else {
        let n = order.len() as int;
        let front = order.drop_last();
        let last = order.last();
        assert(is_descending(cands, front) && is_distinct(front)) by {
            assert forall|a: int, b: int| 0 <= a < b < front.len() implies cands[front[a] as int].amount
                >= cands[front[b] as int].amount && front[a] != front[b] by {
                assert(front[a] == order[a] && front[b] == order[b]);
            }
        }
        if other.contains(last) {
            let at = choose|at: int| 0 <= at < other.len() && other[at] == last;
            let rest = other.remove(at);
            let m = other.len() as int;
            assert(is_distinct(rest)) by {
                assert forall|a: int, b: int| 0 <= a < b < rest.len() implies rest[a]
                    != rest[b] by {
                    let a0 = if a < at { a } else { a + 1 };
                    let b0 = if b < at { b } else { b + 1 };
                    assert(rest[a] == other[a0] && rest[b] == other[b0]);
                }
            }
            assert forall|j: int| 0 <= j < rest.len() implies front.contains(
                #[trigger] rest[j],
            ) by {
                let j0 = if j < at { j } else { j + 1 };
                assert(rest[j] == other[j0]);
                assert(other[j0] != other[at]);
                assert(order.contains(other[j0]));
                let t = choose|t: int| 0 <= t < order.len() && order[t] == other[j0];
                assert(front[t] == rest[j]);
            }
            lemma_front_holds_most(cands, front, rest);
            lemma_sum_remove(cands, other, at);
            assert(order.take(m).drop_last() =~= front.take(m - 1));
            if m < n {
                assert(order.take(m).last() == order[m - 1]);
                assert(cands[order[m - 1] as int].amount >= cands[order[n - 1] as int].amount);
            } else {
                assert(order.take(m).last() == last);
            }
        } else {
            assert forall|j: int| 0 <= j < other.len() implies front.contains(
                #[trigger] other[j],
            ) by {
                assert(order.contains(other[j]));
                let t = choose|t: int| 0 <= t < order.len() && order[t] == other[j];
                assert(other.contains(other[j]));
                assert(front[t] == other[j]);
            }
            lemma_front_holds_most(cands, front, other);
            assert(order.take(other.len() as int) =~= front.take(other.len() as int));
        }
    }
}

/// The selection takes as few candidates as can be: no candidates of the
/// asset that cover the requirement are fewer than the chosen ones.
pub proof fn lemma_choice_is_smallest(
    cands: Seq<Candidate>,
    asset: RuneId,
    required: int,
    other: Seq<usize>,
)
    requires
        cands.len() <= usize::MAX,
        sound(cands, other, asset),
        amounts_sum(cands, other) >= required,
    ensures
        greedy_choice(cands, asset, required).len() <= other.len(),
{
    let pool = matching(cands, asset, cands.len());
    let order = considered(cands, asset);
    lemma_matching_sound(cands, asset, cands.len());
    lemma_ranked_sound(cands, pool, asset);
    lemma_ranked_descending(cands, pool);
    lemma_taken(cands, order, required);
    let k = taken(cands, order, required) as int;
    assert(greedy_choice(cands, asset, required).len() == k);
    if other.len() < k {
        assert forall|j: int| 0 <= j < other.len() implies order.contains(#[trigger] other[j]) by {
            lemma_matching_contains(cands, asset, cands.len(), other[j]);
        }
        lemma_front_holds_most(cands, order, other);
        let front = order.take(k - 1);
        lemma_sum_of_front(cands, front, other.len() as int);
        assert(front.take(other.len() as int) =~= order.take(other.len() as int));
    }
}

} // verus!
