//! From instructions to the words that a transaction carries.

use crate::calldata::{encode_calldata, framed};
use crate::chunks::{pack_bytes_as_u128_chunks, packed_words};
use crate::edicts::{edict_run, encode_edicts_to_ints, sorted_by_id};
use crate::protostone::{origin, Protostone, ProtostoneView};
use crate::prototag::{BODY, BURN, FROM, MESSAGE, POINTER, REFUND};
use crate::varint::{push_leb128_u128, words_bytes};
use vstd::prelude::*;

verus! {

/// Each of `values` behind the tag `tag`.
pub open spec fn tagged(tag: u128, values: Seq<u128>) -> Seq<u128>
    decreases values.len(),
{
    if values.len() == 0 {
        Seq::<u128>::empty()
    } else {
        tagged(tag, values.drop_last()) + seq![tag, values.last()]
    }
}

/// A field that may be absent: its tag and its value, or nothing.
pub open spec fn optional_field(tag: u128, value: Option<u128>) -> Seq<u128> {
    match value {
        Some(v) => seq![tag, v],
        None => Seq::<u128>::empty(),
    }
}

/// An optional index as an optional word.
pub open spec fn widened(value: Option<u32>) -> Option<u128> {
    match value {
        Some(v) => Some(v as u128),
        None => None,
    }
}

/// The authorising inputs, each behind its tag.
pub open spec fn from_words(from: Option<Seq<u32>>) -> Seq<u128> {
    match from {
        Some(inputs) => tagged(FROM, inputs.map_values(|v: u32| v as u128)),
        None => Seq::<u128>::empty(),
    }
}

/// The message: framed, packed into words, each word behind its tag.
pub open spec fn message_words(message: Option<Seq<u8>>) -> Seq<u128> {
    match message {
        Some(msg) => tagged(MESSAGE, packed_words(framed(msg))),
        None => Seq::<u128>::empty(),
    }
}

/// The edicts: the tag that begins them and their sorted run, or nothing
/// where there is no edict.
pub open spec fn edicts_words(edicts: Seq<crate::protostone::Edict>) -> Seq<u128> {
    if edicts.len() == 0 {
        Seq::<u128>::empty()
    } else {
        seq![BODY] + edict_run(sorted_by_id(edicts), origin())
    }
}

/// The fields of an instruction in the order in which they are written:
/// burn, pointer, refund pointer, authorising inputs, message, edicts.
pub open spec fn body_words(p: ProtostoneView) -> Seq<u128> {
    optional_field(BURN, p.burn) + optional_field(POINTER, widened(p.pointer)) + optional_field(
        REFUND,
        widened(p.refund_pointer),
    ) + from_words(p.from) + message_words(p.message) + edicts_words(p.edicts)
}

/// The words of one instruction: its protocol, the number of words that
/// follow, and its fields.
pub open spec fn protostone_words(p: ProtostoneView) -> Seq<u128> {
    seq![p.subprotocol_id, body_words(p).len() as u128] + body_words(p)
}

/// The words of a list of instructions, one instruction after the other.
pub open spec fn stream_words(protos: Seq<ProtostoneView>) -> Seq<u128>
    decreases protos.len(),
{
    if protos.len() == 0 {
        Seq::<u128>::empty()
    } else {
        stream_words(protos.drop_last()) + protostone_words(protos.last())
    }
}

/// What a transaction carries for a list of instructions: their words,
/// each written as a variable-length integer, and those bytes packed.
pub open spec fn encoded_field(protos: Seq<ProtostoneView>) -> Seq<u128> {
    packed_words(words_bytes(stream_words(protos)))
}

/// Appends each of `values` behind `tag`.
fn push_tagged(ints: &mut Vec<u128>, tag: u128, values: &Vec<u128>)
    ensures
        final(ints)@ == old(ints)@ + tagged(tag, values@),
{
    let mut i: usize = 0;
    assert(values@.take(0) =~= Seq::<u128>::empty());
    while i < values.len()
        invariant
            i <= values.len(),
            ints@ == old(ints)@ + tagged(tag, values@.take(i as int)),
        decreases values.len() - i,
    {
        let ghost before = ints@;
        ints.push(tag);
        ints.push(values[i]);
        proof {
            assert(values@.take(i + 1).drop_last() =~= values@.take(i as int));
            assert(values@.take(i + 1).last() == values@[i as int]);
            assert(ints@ =~= before + seq![tag, values@[i as int]]);
        }
        i += 1;
    }
    assert(values@.take(values@.len() as int) =~= values@);
}

/// Appends a field that may be absent.
fn push_optional(ints: &mut Vec<u128>, tag: u128, value: Option<u128>)
    ensures
        final(ints)@ == old(ints)@ + optional_field(tag, value),
{
    if let Some(v) = value {
        ints.push(tag);
        ints.push(v);
        assert(ints@ =~= old(ints)@ + seq![tag, v]);
    } else {
        assert(ints@ =~= old(ints)@ + Seq::<u128>::empty());
    }
}

/// An optional index as an optional word.
fn widen(value: Option<u32>) -> (r: Option<u128>)
    ensures
        r == widened(value),
{
    match value {
        Some(v) => Some(v as u128),
        None => None,
    }
}

/// Appends the authorising inputs.
fn push_from(ints: &mut Vec<u128>, from: &Option<Vec<u32>>)
    ensures
        final(ints)@ == old(ints)@ + from_words(
            match *from {
                Some(f) => Some(f@),
                None => None,
            },
        ),
{
    if let Some(v) = from {
        let mut wide: Vec<u128> = Vec::new();
        let mut i: usize = 0;
        assert(wide@ =~= v@.take(0).map_values(|x: u32| x as u128));
        while i < v.len()
            invariant
                i <= v.len(),
                wide@ == v@.take(i as int).map_values(|x: u32| x as u128),
            decreases v.len() - i,
        {
            wide.push(v[i] as u128);
            i += 1;
            assert(wide@ =~= v@.take(i as int).map_values(|x: u32| x as u128));
        }
        assert(v@.take(v@.len() as int) =~= v@);
        push_tagged(ints, FROM, &wide);
    } else {
        assert(ints@ =~= old(ints)@ + Seq::<u128>::empty());
    }
}

/// Appends the message.
fn push_message(ints: &mut Vec<u128>, message: &Option<Vec<u8>>)
    ensures
        final(ints)@ == old(ints)@ + message_words(
            match *message {
                Some(m) => Some(m@),
                None => None,
            },
        ),
{
    if let Some(msg_raw) = message {
        let buf = encode_calldata(msg_raw.as_slice());
        let chunks = pack_bytes_as_u128_chunks(buf.as_slice());
        push_tagged(ints, MESSAGE, &chunks);
    } else {
        assert(ints@ =~= old(ints)@ + Seq::<u128>::empty());
    }
}

/// Appends the edicts.
fn push_edicts(ints: &mut Vec<u128>, edicts: &Vec<crate::protostone::Edict>)
    ensures
        final(ints)@ == old(ints)@ + edicts_words(edicts@),
{
    if edicts.len() != 0 {
        ints.push(BODY);
        let run = encode_edicts_to_ints(edicts.as_slice());
        let mut i: usize = 0;
        assert(ints@ =~= old(ints)@ + seq![BODY] + run@.take(0));
        while i < run.len()
            invariant
                i <= run.len(),
                ints@ == old(ints)@ + seq![BODY] + run@.take(i as int),
            decreases run.len() - i,
        {
            ints.push(run[i]);
            i += 1;
            assert(ints@ =~= old(ints)@ + seq![BODY] + run@.take(i as int));
        }
        assert(run@.take(run@.len() as int) =~= run@);
        assert(ints@ =~= old(ints)@ + (seq![BODY] + run@));
    } else {
        assert(ints@ =~= old(ints)@ + Seq::<u128>::empty());
    }
}

/// The words of one instruction.
pub fn encode_protostone_to_ints(p: &Protostone) -> (ints: Vec<u128>)
    ensures
        ints@ == protostone_words(p@),
{
    let mut ints: Vec<u128> = Vec::new();
    ints.push(p.subprotocol_id);
    ints.push(0);
    let ghost head = ints@;
    push_optional(&mut ints, BURN, p.burn);
    let ghost s1 = ints@;
    push_optional(&mut ints, POINTER, widen(p.pointer));
    let ghost s2 = ints@;
    push_optional(&mut ints, REFUND, widen(p.refund_pointer));
    let ghost s3 = ints@;
    push_from(&mut ints, &p.from);
    let ghost s4 = ints@;
    push_message(&mut ints, &p.message);
    let ghost s5 = ints@;
    push_edicts(&mut ints, &p.edicts);
    proof {
        let body = body_words(p@);
        assert(ints@ =~= head + body) by {
            assert(s1 == head + optional_field(BURN, p@.burn));
            assert(s2 == s1 + optional_field(POINTER, widened(p@.pointer)));
            assert(s3 == s2 + optional_field(REFUND, widened(p@.refund_pointer)));
            assert(s4 == s3 + from_words(p@.from));
            assert(s5 == s4 + message_words(p@.message));
            assert(ints@ == s5 + edicts_words(p@.edicts));
        }
    }
    let body_len: usize = ints.len() - 2;
    ints.set(1, body_len as u128);
    assert(ints@ =~= protostone_words(p@));
    ints
}

/// What a transaction carries for `protos`; nothing for an empty list.
pub fn encode_protocol_field(protos: &[Protostone]) -> (chunks: Vec<u128>)
    ensures
        chunks@ == encoded_field(crate::protostone::views(protos@)),
{
    let ghost all = crate::protostone::views(protos@);
    let mut internal: Vec<u128> = Vec::new();
    let mut i: usize = 0;
    assert(all.take(0) =~= Seq::<ProtostoneView>::empty());
    while i < protos.len()
        invariant
            i <= protos.len(),
            all == crate::protostone::views(protos@),
            internal@ == stream_words(all.take(i as int)),
        decreases protos.len() - i,
    {
        let words = encode_protostone_to_ints(&protos[i]);
        let ghost before = internal@;
        let mut j: usize = 0;
        while j < words.len()
            invariant
                j <= words.len(),
                internal@ == before + words@.take(j as int),
            decreases words.len() - j,
        {
            internal.push(words[j]);
            j += 1;
            assert(internal@ =~= before + words@.take(j as int));
        }
        proof {
            assert(words@.take(words@.len() as int) =~= words@);
            assert(all.take(i + 1).drop_last() =~= all.take(i as int));
            assert(all.take(i + 1).last() == protos@[i as int]@);
        }
        i += 1;
    }
    assert(all.take(all.len() as int) =~= all);
    pack_words(&internal)
}

/// Writes each word as a variable-length integer and packs the bytes.
pub fn pack_words(words: &Vec<u128>) -> (chunks: Vec<u128>)
    ensures
        chunks@ == packed_words(words_bytes(words@)),
{
    let mut bytes: Vec<u8> = Vec::new();
    let mut k: usize = 0;
    assert(words@.take(0) =~= Seq::<u128>::empty());
    while k < words.len()
        invariant
            k <= words.len(),
            bytes@ == words_bytes(words@.take(k as int)),
        decreases words.len() - k,
    {
        push_leb128_u128(words[k], &mut bytes);
        proof {
            assert(words@.take(k + 1).drop_last() =~= words@.take(k as int));
            assert(words@.take(k + 1).last() == words@[k as int]);
        }
        k += 1;
    }
    assert(words@.take(words@.len() as int) =~= words@);
    pack_bytes_as_u128_chunks(bytes.as_slice())
}

} // verus!
