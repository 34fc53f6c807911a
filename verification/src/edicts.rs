//! A run of edicts on the wire: sorted by asset, each asset written as its
//! distance from the one before.

use crate::protostone::{low_u32, low_u64, origin, truncate_u32, truncate_u64, Edict, RuneId};
use vstd::prelude::*;

verus! {

/// `a` is `b` or comes before it: by block, then by position in the block.
pub open spec fn id_le(a: RuneId, b: RuneId) -> bool {
    a.block < b.block || (a.block == b.block && a.tx <= b.tx)
}

/// Whether each edict's asset is the asset of the one before or a later one.
pub open spec fn is_sorted(edicts: Seq<Edict>) -> bool {
    forall|i: int, j: int| 0 <= i < j < edicts.len() ==> id_le(edicts[i].id, edicts[j].id)
}

/// `sorted` with `e` put behind every edict whose asset is not after its own.
pub open spec fn inserted(sorted: Seq<Edict>, e: Edict) -> Seq<Edict>
    decreases sorted.len(),
{
    if sorted.len() == 0 {
        seq![e]
    } else if id_le(sorted.last().id, e.id) {
        sorted.push(e)
    } else {
        inserted(sorted.drop_last(), e).push(sorted.last())
    }
}

/// The edicts in the order of their assets; edicts of one asset keep the
/// order in which they were given.
pub open spec fn sorted_by_id(edicts: Seq<Edict>) -> Seq<Edict>
    decreases edicts.len(),
{
    if edicts.len() == 0 {
        edicts
    } else {
        inserted(sorted_by_id(edicts.drop_last()), edicts.last())
    }
}

/// The four words of one edict that follows an edict of the asset `base`:
/// the distance in blocks; the position, or its distance where the block is
/// the same; the amount; the output.
pub open spec fn edict_words(e: Edict, base: RuneId) -> Seq<u128> {
    let block_delta = e.id.block - base.block;
    seq![
        block_delta as u128,
        if block_delta == 0 {
            (e.id.tx - base.tx) as u128
        } else {
            e.id.tx as u128
        },
        e.amount,
        e.output as u128,
    ]
}

/// The words of a run of edicts of which the first follows the asset `base`.
pub open spec fn edict_run(edicts: Seq<Edict>, base: RuneId) -> Seq<u128>
    decreases edicts.len(),
{
    if edicts.len() == 0 {
        Seq::<u128>::empty()
    } else {
        edict_words(edicts[0], base) + edict_run(edicts.drop_first(), edicts[0].id)
    }
}

/// The edict that four words give after an edict of the asset `base`.
/// Distances are added to `base` and wrap around; of a word only as many low
/// bits count as the field has.
pub open spec fn decoded_edict(base: RuneId, w0: u128, w1: u128, w2: u128, w3: u128) -> Edict {
    let block_delta = low_u64(w0);
    let tx_value = low_u32(w1);
    Edict {
        id: RuneId {
            block: base.block.wrapping_add(block_delta),
            tx: if block_delta == 0 {
                base.tx.wrapping_add(tx_value)
            } else {
                tx_value
            },
        },
        amount: w2,
        output: low_u32(w3),
    }
}

/// The edicts that the words from `idx` up to `end` give, four words to an
/// edict, the first after the asset `base`. Fewer than four words at the end
/// give nothing.
pub open spec fn parsed_edicts(ints: Seq<u128>, idx: int, end: int, base: RuneId) -> Seq<Edict>
    decreases end - idx,
{
    if idx < 0 || idx + 4 > end || end > ints.len() {
        Seq::<Edict>::empty()
    } else {
        let e = decoded_edict(base, ints[idx], ints[idx + 1], ints[idx + 2], ints[idx + 3]);
        seq![e] + parsed_edicts(ints, idx + 4, end, e.id)
    }
}

/// Inserting puts the edict at the place behind the last edict that is not after it.
proof fn lemma_inserted_at(sorted: Seq<Edict>, e: Edict, j: int)
    requires
        0 <= j <= sorted.len(),
        forall|i: int| j <= i < sorted.len() ==> !id_le(#[trigger] sorted[i].id, e.id),
        j == 0 || id_le(sorted[j - 1].id, e.id),
    ensures
        inserted(sorted, e) == sorted.insert(j, e),
    decreases sorted.len() - j,
{
    if j == sorted.len() {
        if sorted.len() == 0 {
            assert(seq![e] =~= sorted.insert(j, e));
        } else {
            assert(sorted.push(e) =~= sorted.insert(j, e));
        }
    } else {
        let front = sorted.drop_last();
        assert(!id_le(sorted[sorted.len() - 1].id, e.id));
        lemma_inserted_at(front, e, j);
        assert(front.insert(j, e).push(sorted.last()) =~= sorted.insert(j, e));
    }
}

/// Puts the edicts in the order of their assets, keeping the given order
/// among edicts of one asset.
pub fn sort_edicts(edicts: &[Edict]) -> (out: Vec<Edict>)
    ensures
        out@ == sorted_by_id(edicts@),
{
    let mut out: Vec<Edict> = Vec::new();
    let mut i: usize = 0;
    assert(edicts@.take(0) =~= Seq::<Edict>::empty());
    while i < edicts.len()
        invariant
            i <= edicts.len(),
            out@ == sorted_by_id(edicts@.take(i as int)),
        decreases edicts.len() - i,
    {
        let e = edicts[i];
        let mut j: usize = out.len();
        while j > 0 && (out[j - 1].id.block > e.id.block || (out[j - 1].id.block == e.id.block
            && out[j - 1].id.tx > e.id.tx))
            invariant
                j <= out.len(),
                forall|k: int| j <= k < out.len() ==> !id_le(#[trigger] out[k].id, e.id),
            decreases j,
        {
            j -= 1;
        }
        proof {
            lemma_inserted_at(out@, e, j as int);
            assert(edicts@.take(i + 1).drop_last() =~= edicts@.take(i as int));
            assert(edicts@.take(i + 1).last() == e);
        }
        out.insert(j, e);
        i += 1;
    }
    assert(edicts@.take(edicts@.len() as int) =~= edicts@);
    out
}

/// Inserting into a sorted run gives a sorted run with the same edicts and the new one.
pub proof fn lemma_inserted_sorted(sorted: Seq<Edict>, e: Edict)
    requires
        is_sorted(sorted),
    ensures
        is_sorted(inserted(sorted, e)),
        inserted(sorted, e).len() == sorted.len() + 1,
        inserted(sorted, e).to_multiset() == sorted.to_multiset().insert(e),
    decreases sorted.len(),
{
    broadcast use vstd::seq_lib::group_to_multiset_ensures;

    if sorted.len() == 0 {
        assert(seq![e] =~= sorted.push(e));
    } else if id_le(sorted.last().id, e.id) {
        let longer = sorted.push(e);
        assert forall|i: int, j: int| 0 <= i < j < longer.len() implies id_le(
            longer[i].id,
            longer[j].id,
        ) by {
            if j == sorted.len() {
                if i < sorted.len() - 1 {
                    assert(id_le(sorted[i].id, sorted[sorted.len() - 1].id));
                }
            }
        }
    } else {
        let front = sorted.drop_last();
        let last = sorted.last();
        assert(is_sorted(front)) by {
            assert forall|i: int, j: int| 0 <= i < j < front.len() implies id_le(
                front[i].id,
                front[j].id,
            ) by {
                assert(id_le(sorted[i].id, sorted[j].id));
            }
        }
        lemma_inserted_sorted(front, e);
        let mid = inserted(front, e);
        let longer = mid.push(last);
        assert(sorted =~= front.push(last));
        assert(longer.to_multiset() =~= sorted.to_multiset().insert(e));
        assert forall|i: int, j: int| 0 <= i < j < longer.len() implies id_le(
            longer[i].id,
            longer[j].id,
        ) by {
            if j == mid.len() {
                // Every edict of `mid` is `e` or an edict of `front`.
                assert(mid.to_multiset().count(mid[i]) > 0);
                if mid[i] != e {
                    assert(front.to_multiset().count(mid[i]) > 0);
                    let k = choose|k: int| 0 <= k < front.len() && front[k] == mid[i];
                    assert(id_le(sorted[k].id, sorted[sorted.len() - 1].id));
                }
            } else {
                assert(id_le(mid[i].id, mid[j].id));
            }
        }
    }
}

/// Sorting gives a sorted run that holds each edict as often as it was given.
pub proof fn lemma_sorted_by_id(edicts: Seq<Edict>)
    ensures
        is_sorted(sorted_by_id(edicts)),
        sorted_by_id(edicts).len() == edicts.len(),
        sorted_by_id(edicts).to_multiset() == edicts.to_multiset(),
    decreases edicts.len(),
{
    broadcast use vstd::seq_lib::group_to_multiset_ensures;

    if edicts.len() > 0 {
        let front = edicts.drop_last();
        lemma_sorted_by_id(front);
        lemma_inserted_sorted(sorted_by_id(front), edicts.last());
        assert(edicts =~= front.push(edicts.last()));
    }
}

/// The words of `edicts`, sorted by asset and each asset written as its
/// distance from the one before; the first is counted from the asset
/// (0, 0).
pub fn encode_edicts_to_ints(edicts: &[Edict]) -> (ints: Vec<u128>)
    ensures
        ints@ == edict_run(sorted_by_id(edicts@), origin()),
{
    let eds = sort_edicts(edicts);
    let mut ints: Vec<u128> = Vec::new();
    let mut base_b: u64 = 0;
    let mut base_tx: u32 = 0;
    let mut i: usize = 0;
    proof {
        lemma_sorted_by_id(edicts@);
        assert(eds@.skip(0) =~= eds@);
    }
    while i < eds.len()
        invariant
            i <= eds.len(),
            is_sorted(eds@),
            i > 0 ==> base_b == eds[i - 1].id.block && base_tx == eds[i - 1].id.tx,
            i == 0 ==> base_b == 0 && base_tx == 0,
            ints@ + edict_run(eds@.skip(i as int), RuneId { block: base_b, tx: base_tx })
                == edict_run(eds@, origin()),
        decreases eds.len() - i,
    {
        let e = eds[i];
        let ghost base = RuneId { block: base_b, tx: base_tx };
        let ghost rest = eds@.skip(i as int);
        let ghost before = ints@;
        proof {
            if i > 0 {
                assert(id_le(eds[i - 1].id, eds[i as int].id));
            }
            assert(rest[0] == e);
            assert(rest.drop_first() =~= eds@.skip(i + 1));
        }
        let b_delta: u64 = e.id.block - base_b;
        ints.push(b_delta as u128);
        let tx: u128 = if b_delta == 0 {
            (e.id.tx - base_tx) as u128
        } else {
            e.id.tx as u128
        };
        ints.push(tx);
        ints.push(e.amount);
        ints.push(e.output as u128);
        proof {
            assert(ints@ =~= before + edict_words(e, base));
            assert(ints@ + edict_run(eds@.skip(i + 1), e.id) =~= before + edict_run(rest, base));
        }
        base_b = e.id.block;
        base_tx = e.id.tx;
        i += 1;
    }
    ints
}

/// Reads edicts from the words `idx..end`, four words to an edict, and
/// returns them with the index behind the last word that was read.
pub fn parse_edicts_from_body(ints: &[u128], idx: usize, end: usize) -> (r: (Vec<Edict>, usize))
    requires
        idx <= end <= ints.len(),
    ensures
        r.0@ == parsed_edicts(ints@, idx as int, end as int, origin()),
        r.1 == idx + 4 * r.0.len(),
        r.1 <= end,
        end - r.1 < 4,
{
    let mut edicts: Vec<Edict> = Vec::new();
    let mut idx: usize = idx;
    let ghost first = idx as int;
    let mut base_b: u64 = 0;
    let mut base_tx: u32 = 0;
    while end - idx >= 4
        invariant
            first <= idx <= end <= ints.len(),
            idx == first + 4 * edicts.len(),
            edicts@ + parsed_edicts(
                ints@,
                idx as int,
                end as int,
                RuneId { block: base_b, tx: base_tx },
            ) == parsed_edicts(ints@, first, end as int, origin()),
        decreases end - idx,
    {
        let ghost base = RuneId { block: base_b, tx: base_tx };
        let ghost before = edicts@;
        let b_delta: u64 = truncate_u64(ints[idx]);
        let tx_val: u32 = truncate_u32(ints[idx + 1]);
        let amount: u128 = ints[idx + 2];
        let output: u32 = truncate_u32(ints[idx + 3]);
        let block: u64 = base_b.wrapping_add(b_delta);
        let tx: u32 = if b_delta == 0 {
            base_tx.wrapping_add(tx_val)
        } else {
            tx_val
        };
        let e = Edict { id: RuneId { block, tx }, amount, output };
        proof {
            assert(e == decoded_edict(
                base,
                ints@[idx as int],
                ints@[idx + 1],
                ints@[idx + 2],
                ints@[idx + 3],
            ));
        }
        idx += 4;
        base_b = block;
        base_tx = tx;
        edicts.push(e);
        proof {
            assert(edicts@ + parsed_edicts(ints@, idx as int, end as int, e.id) =~= before
                + parsed_edicts(ints@, idx - 4, end as int, base));
        }
    }
    (edicts, idx)
}

/// A sorted run is read back from its words. The first edict must not come
/// before the asset from which the run is counted.
pub proof fn lemma_edict_run_round_trip(
    ints: Seq<u128>,
    idx: int,
    end: int,
    edicts: Seq<Edict>,
    base: RuneId,
)
    requires
        0 <= idx <= end <= ints.len(),
        ints.subrange(idx, end) == edict_run(edicts, base),
        is_sorted(edicts),
        edicts.len() > 0 ==> id_le(base, edicts[0].id),
    ensures
        parsed_edicts(ints, idx, end, base) == edicts,
    decreases edicts.len(),
{
    let words = ints.subrange(idx, end);
    if edicts.len() == 0 {
        assert(words.len() == 0);
        assert(parsed_edicts(ints, idx, end, base) =~= edicts);
    } else {
        let e = edicts[0];
        let rest = edicts.drop_first();
        let head = edict_words(e, base);
        assert(words == head + edict_run(rest, e.id));
        assert(words.len() >= 4);
        assert(ints[idx] == words[0] && words[0] == head[0]);
        assert(ints[idx + 1] == words[1] && words[1] == head[1]);
        assert(ints[idx + 2] == words[2] && words[2] == head[2]);
        assert(ints[idx + 3] == words[3] && words[3] == head[3]);
        let block_delta = e.id.block - base.block;
        assert(low_u64(head[0]) == block_delta);
        assert(low_u32(head[3]) == e.output);
        if block_delta == 0 {
            assert(low_u32(head[1]) == e.id.tx - base.tx);
        } else {
            assert(low_u32(head[1]) == e.id.tx);
        }
        assert(decoded_edict(base, ints[idx], ints[idx + 1], ints[idx + 2], ints[idx + 3]) == e);
        assert(head.len() == 4);
        assert(ints.subrange(idx + 4, end) =~= words.subrange(4, words.len() as int));
        assert(words.subrange(4, words.len() as int) =~= edict_run(rest, e.id));
        assert(is_sorted(rest)) by {
            assert forall|i: int, j: int| 0 <= i < j < rest.len() implies id_le(
                rest[i].id,
                rest[j].id,
            ) by {
                assert(id_le(edicts[i + 1].id, edicts[j + 1].id));
            }
        }
        if rest.len() > 0 {
            assert(id_le(edicts[0].id, edicts[1].id));
        }
        lemma_edict_run_round_trip(ints, idx + 4, end, rest, e.id);
        assert(parsed_edicts(ints, idx, end, base) =~= seq![e] + rest);
        assert(seq![e] + rest =~= edicts);
    }
}

/// The length of a run: four words for each edict.
pub proof fn lemma_edict_run_len(edicts: Seq<Edict>, base: RuneId)
    ensures
        edict_run(edicts, base).len() == 4 * edicts.len(),
    decreases edicts.len(),
{
    if edicts.len() > 0 {
        lemma_edict_run_len(edicts.drop_first(), edicts[0].id);
    }
}

/// The edicts of one asset, in their order.
pub open spec fn of_asset(edicts: Seq<Edict>, id: RuneId) -> Seq<Edict>
    decreases edicts.len(),
{
    if edicts.len() == 0 {
        edicts
    } else if edicts.last().id == id {
        of_asset(edicts.drop_last(), id).push(edicts.last())
    } else {
        of_asset(edicts.drop_last(), id)
    }
}

/// An inserted edict comes behind the edicts of its asset, and the edicts
/// of another asset stay as they are.
proof fn lemma_inserted_of_asset(sorted: Seq<Edict>, e: Edict, id: RuneId)
    requires
        is_sorted(sorted),
    ensures
        of_asset(inserted(sorted, e), id) == if e.id == id {
            of_asset(sorted, id).push(e)
        } else {
            of_asset(sorted, id)
        },
    decreases sorted.len(),
{
    if sorted.len() == 0 {
        assert(seq![e].drop_last() =~= sorted);
        assert(seq![e].last() == e);
    } else if id_le(sorted.last().id, e.id) {
        assert(sorted.push(e).drop_last() =~= sorted);
    } else {
        let front = sorted.drop_last();
        let last = sorted.last();
        assert(is_sorted(front)) by {
            assert forall|i: int, j: int| 0 <= i < j < front.len() implies id_le(
                front[i].id,
                front[j].id,
            ) by {
                assert(id_le(sorted[i].id, sorted[j].id));
            }
        }
        lemma_inserted_of_asset(front, e, id);
        let longer = inserted(front, e).push(last);
        assert(longer.drop_last() =~= inserted(front, e));
        assert(longer.last() == last);
    }
}

/// Sorting is stable: the edicts of one asset stay in the order in which
/// they were given.
pub proof fn lemma_sort_is_stable(edicts: Seq<Edict>, id: RuneId)
    ensures
        of_asset(sorted_by_id(edicts), id) == of_asset(edicts, id),
    decreases edicts.len(),
{
    if edicts.len() > 0 {
        let front = edicts.drop_last();
        lemma_sort_is_stable(front, id);
        lemma_sorted_by_id(front);
        lemma_inserted_of_asset(sorted_by_id(front), edicts.last(), id);
    }
}

} // verus!
