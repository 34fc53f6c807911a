//! Decoding undoes encoding: which instructions come back from their words,
//! and in what form.

use crate::calldata::{framed, lemma_unframed_framed, unframed};
use crate::chunks::{
    chunk_count, lemma_chunk_round_trip, packed_words, survives_packing, unpacked_bytes,
};
use crate::decode::{
    decoded_words, empty_scan, finished, parsed_stream, scan_fields, with_field, Scan,
};
use crate::edicts::{
    edict_run, id_le, lemma_edict_run_round_trip, lemma_sorted_by_id, sorted_by_id,
};
use crate::encode::{
    body_words, edicts_words, encoded_field, from_words, message_words, optional_field,
    protostone_words, stream_words, tagged, widened,
};
use crate::protostone::{low_u32, origin, ProtostoneView};
use crate::prototag::{BODY, BURN, FROM, MESSAGE, POINTER, REFUND};
use crate::varint::{lemma_words_round_trip, words_bytes};
use vstd::prelude::*;

verus! {

/// The instruction as decoding gives it back: its edicts in the order of
/// their assets.
pub open spec fn normalized(p: ProtostoneView) -> ProtostoneView {
    ProtostoneView { edicts: sorted_by_id(p.edicts), ..p }
}

/// Whether an instruction is read back from its words, whatever becomes
/// of its message. Its protocol is not zero and it has at least one field,
/// since a zero in either place ends a stream. A list of authorising
/// inputs is not empty, since an empty one leaves no word. The number of
/// its words fits a machine word.
pub open spec fn is_read_back(p: ProtostoneView) -> bool {
    &&& p.subprotocol_id != 0
    &&& 0 < body_words(p).len() <= usize::MAX
    &&& p.from matches Some(inputs) ==> inputs.len() > 0
}

/// Whether an instruction comes back from its words as it was: it is read
/// back, and its framed message survives packing.
pub open spec fn comes_back(p: ProtostoneView) -> bool {
    &&& is_read_back(p)
    &&& p.message matches Some(msg) ==> survives_packing(framed(msg))
}

/// The message as it is read back: what the frame holds once it was
/// packed and unpacked. Zero bytes that were lost at the end of a group
/// are missing in it, and with its frame broken there is none.
pub open spec fn message_as_read(message: Option<Seq<u8>>) -> Option<Seq<u8>> {
    match message {
        Some(msg) => unframed(unpacked_bytes(packed_words(framed(msg)))),
        None => None,
    }
}

/// The instruction as it is read back: its edicts in the order of their
/// assets, and its message as it is read back.
pub open spec fn as_read(p: ProtostoneView) -> ProtostoneView {
    ProtostoneView {
        edicts: sorted_by_id(p.edicts),
        message: message_as_read(p.message),
        ..p
    }
}

/// `acc` after a run of fields with the tag `tag`.
pub open spec fn with_fields(acc: Scan, tag: u128, values: Seq<u128>) -> Scan
    decreases values.len(),
{
    if values.len() == 0 {
        acc
    } else {
        with_field(with_fields(acc, tag, values.drop_last()), tag, values.last())
    }
}

/// Scanning passes over a field that may be absent.
proof fn lemma_scan_optional(
    ints: Seq<u128>,
    i: int,
    end: int,
    acc: Scan,
    tag: u128,
    value: Option<u128>,
)
    requires
        tag != BODY,
        0 <= i,
        i + optional_field(tag, value).len() <= end <= ints.len(),
        ints.subrange(i, i + optional_field(tag, value).len()) == optional_field(tag, value),
    ensures
        scan_fields(ints, i, end, acc) == scan_fields(
            ints,
            i + optional_field(tag, value).len(),
            end,
            match value {
                Some(v) => with_field(acc, tag, v),
                None => acc,
            },
        ),
{
    if let Some(v) = value {
        let field = ints.subrange(i, i + 2);
        assert(ints[i] == field[0]);
        assert(ints[i + 1] == field[1]);
    }
}

/// Scanning passes over a run of fields with one tag.
proof fn lemma_scan_tagged(
    ints: Seq<u128>,
    i: int,
    end: int,
    acc: Scan,
    tag: u128,
    values: Seq<u128>,
)
    requires
        tag != BODY,
        0 <= i,
        i + 2 * values.len() <= end <= ints.len(),
        ints.subrange(i, i + 2 * values.len()) == tagged(tag, values),
    ensures
        tagged(tag, values).len() == 2 * values.len(),
        scan_fields(ints, i, end, acc) == scan_fields(
            ints,
            i + 2 * values.len(),
            end,
            with_fields(acc, tag, values),
        ),
    decreases values.len(),
{
    lemma_tagged_len(tag, values);
    if values.len() > 0 {
        let front = values.drop_last();
        let n = front.len() as int;
        let run = tagged(tag, values);
        lemma_tagged_len(tag, front);
        assert(run == tagged(tag, front) + seq![tag, values.last()]);
        assert(ints.subrange(i, i + 2 * n) =~= tagged(tag, front)) by {
            assert(ints.subrange(i, i + 2 * n) =~= run.subrange(0, 2 * n));
        }
        lemma_scan_tagged(ints, i, end, acc, tag, front);
        assert(ints[i + 2 * n] == run[2 * n]);
        assert(ints[i + 2 * n + 1] == run[2 * n + 1]);
    }
}

/// A run of fields has two words for each value.
pub proof fn lemma_tagged_len(tag: u128, values: Seq<u128>)
    ensures
        tagged(tag, values).len() == 2 * values.len(),
    decreases values.len(),
{
    if values.len() > 0 {
        lemma_tagged_len(tag, values.drop_last());
    }
}

/// What a run of authorising inputs leaves.
proof fn lemma_with_from(acc: Scan, inputs: Seq<u32>)
    ensures
        with_fields(acc, FROM, inputs.map_values(|v: u32| v as u128)) == (Scan {
            from: acc.from + inputs,
            ..acc
        }),
    decreases inputs.len(),
{
    let wide = inputs.map_values(|v: u32| v as u128);
    if inputs.len() == 0 {
        assert(acc.from + inputs =~= acc.from);
    } else {
        lemma_with_from(acc, inputs.drop_last());
        assert(wide.drop_last() =~= inputs.drop_last().map_values(|v: u32| v as u128));
        assert(low_u32(wide.last()) == inputs.last());
        assert((acc.from + inputs.drop_last()).push(inputs.last()) =~= acc.from + inputs);
    }
}

/// What a run of message words leaves.
proof fn lemma_with_message(acc: Scan, words: Seq<u128>)
    ensures
        with_fields(acc, MESSAGE, words) == (Scan {
            message_words: acc.message_words + words,
            ..acc
        }),
    decreases words.len(),
{
    if words.len() == 0 {
        assert(acc.message_words + words =~= acc.message_words);
    } else {
        lemma_with_message(acc, words.drop_last());
        assert((acc.message_words + words.drop_last()).push(words.last()) =~= acc.message_words
            + words);
    }
}

/// What the burn and the two pointers of `p` leave.
pub open spec fn heads_scan(p: ProtostoneView) -> Scan {
    Scan { burn: p.burn, pointer: p.pointer, refund_pointer: p.refund_pointer, ..empty_scan() }
}

/// What all fields of `p` before its edicts leave.
pub open spec fn lists_scan(p: ProtostoneView) -> Scan {
    Scan {
        from: match p.from {
            Some(inputs) => inputs,
            None => Seq::<u32>::empty(),
        },
        message_words: match p.message {
            Some(msg) => packed_words(framed(msg)),
            None => Seq::<u128>::empty(),
        },
        ..heads_scan(p)
    }
}

/// The two parts of a stretch of words that is one list behind another.
proof fn lemma_split(ints: Seq<u128>, a: int, c: int, x: Seq<u128>, y: Seq<u128>)
    requires
        0 <= a <= c <= ints.len(),
        ints.subrange(a, c) == x + y,
    ensures
        ints.subrange(a, a + x.len()) == x,
        ints.subrange(a + x.len(), c) == y,
{
    let both = ints.subrange(a, c);
    assert(both.len() == c - a);
    assert((x + y).len() == x.len() + y.len());
    assert(ints.subrange(a, a + x.len()) =~= both.subrange(0, x.len() as int));
    assert(both.subrange(0, x.len() as int) =~= x);
    assert(ints.subrange(a + x.len(), c) =~= both.subrange(x.len() as int, both.len() as int));
    assert(both.subrange(x.len() as int, both.len() as int) =~= y);
}

/// Scanning passes over the burn and the two pointers.
proof fn lemma_scan_heads(ints: Seq<u128>, start: int, end: int, p: ProtostoneView)
    requires
        0 <= start,
        start + optional_field(BURN, p.burn).len() + optional_field(
            POINTER,
            widened(p.pointer),
        ).len() + optional_field(REFUND, widened(p.refund_pointer)).len() <= end <= ints.len(),
        ints.subrange(
            start,
            start + optional_field(BURN, p.burn).len() + optional_field(
                POINTER,
                widened(p.pointer),
            ).len() + optional_field(REFUND, widened(p.refund_pointer)).len(),
        ) == optional_field(BURN, p.burn) + optional_field(POINTER, widened(p.pointer))
            + optional_field(REFUND, widened(p.refund_pointer)),
    ensures
        scan_fields(ints, start, end, empty_scan()) == scan_fields(
            ints,
            start + optional_field(BURN, p.burn).len() + optional_field(
                POINTER,
                widened(p.pointer),
            ).len() + optional_field(REFUND, widened(p.refund_pointer)).len(),
            end,
            heads_scan(p),
        ),
{
    let f1 = optional_field(BURN, p.burn);
    let f2 = optional_field(POINTER, widened(p.pointer));
    let f3 = optional_field(REFUND, widened(p.refund_pointer));
    let o1 = start + f1.len();
    let o2 = o1 + f2.len();
    let o3 = o2 + f3.len();
    lemma_split(ints, start, o3, f1 + f2, f3);
    lemma_split(ints, start, o2, f1, f2);
    let a0 = empty_scan();
    lemma_scan_optional(ints, start, end, a0, BURN, p.burn);
    let a1 = match p.burn {
        Some(v) => with_field(a0, BURN, v),
        None => a0,
    };
    lemma_scan_optional(ints, o1, end, a1, POINTER, widened(p.pointer));
    let a2 = match widened(p.pointer) {
        Some(v) => with_field(a1, POINTER, v),
        None => a1,
    };
    lemma_scan_optional(ints, o2, end, a2, REFUND, widened(p.refund_pointer));
    let a3 = match widened(p.refund_pointer) {
        Some(v) => with_field(a2, REFUND, v),
        None => a2,
    };
    if let Some(v) = p.pointer {
        assert(low_u32(v as u128) == v);
    }
    if let Some(v) = p.refund_pointer {
        assert(low_u32(v as u128) == v);
    }
    assert(a3 == heads_scan(p));
}

/// Scanning passes over the authorising inputs and the message.
proof fn lemma_scan_lists(ints: Seq<u128>, at: int, end: int, p: ProtostoneView)
    requires
        0 <= at,
        at + from_words(p.from).len() + message_words(p.message).len() <= end <= ints.len(),
        ints.subrange(at, at + from_words(p.from).len() + message_words(p.message).len())
            == from_words(p.from) + message_words(p.message),
    ensures
        scan_fields(ints, at, end, heads_scan(p)) == scan_fields(
            ints,
            at + from_words(p.from).len() + message_words(p.message).len(),
            end,
            lists_scan(p),
        ),
{
    let f4 = from_words(p.from);
    let f5 = message_words(p.message);
    let o4 = at + f4.len();
    let o5 = o4 + f5.len();
    lemma_split(ints, at, o5, f4, f5);
    let a3 = heads_scan(p);
    let a4 = match p.from {
        Some(inputs) => Scan { from: inputs, ..a3 },
        None => a3,
    };
    assert(scan_fields(ints, at, end, a3) == scan_fields(ints, o4, end, a4)) by {
        if let Some(inputs) = p.from {
            let wide = inputs.map_values(|v: u32| v as u128);
            lemma_tagged_len(FROM, wide);
            lemma_scan_tagged(ints, at, end, a3, FROM, wide);
            lemma_with_from(a3, inputs);
            assert(a3.from + inputs =~= inputs);
        }
    }
    assert(scan_fields(ints, o4, end, a4) == scan_fields(ints, o5, end, lists_scan(p))) by {
        if let Some(msg) = p.message {
            let words = packed_words(framed(msg));
            lemma_tagged_len(MESSAGE, words);
            lemma_scan_tagged(ints, o4, end, a4, MESSAGE, words);
            lemma_with_message(a4, words);
            assert(a4.message_words + words =~= words);
        }
        assert(a4.from =~= lists_scan(p).from);
    }
}

/// Scanning reads the edicts in the order of their assets.
proof fn lemma_scan_edicts(ints: Seq<u128>, at: int, end: int, p: ProtostoneView, acc: Scan)
    requires
        0 <= at <= end <= ints.len(),
        ints.subrange(at, end) == edicts_words(p.edicts),
        acc.edicts == Seq::<crate::protostone::Edict>::empty(),
    ensures
        scan_fields(ints, at, end, acc) == (Scan { edicts: sorted_by_id(p.edicts), ..acc }),
{
    let f6 = edicts_words(p.edicts);
    let sorted = sorted_by_id(p.edicts);
    lemma_sorted_by_id(p.edicts);
    if p.edicts.len() == 0 {
        assert(sorted =~= Seq::empty());
    } else {
        let stretch = ints.subrange(at, end);
        assert(stretch.len() == end - at);
        assert(f6.len() >= 1);
        assert(ints[at] == stretch[0]);
        assert(ints.subrange(at + 1, end) =~= edict_run(sorted, origin())) by {
            assert(ints.subrange(at + 1, end) =~= f6.subrange(1, f6.len() as int));
        }
        assert(id_le(origin(), sorted[0].id));
        lemma_edict_run_round_trip(ints, at + 1, end, sorted, origin());
    }
}

/// What the scan of all fields gives is the instruction with its edicts sorted.
proof fn lemma_finished(p: ProtostoneView)
    requires
        is_read_back(p),
    ensures
        finished(p.subprotocol_id, Scan { edicts: sorted_by_id(p.edicts), ..lists_scan(p) })
            == as_read(p),
{
    let got = finished(p.subprotocol_id, Scan { edicts: sorted_by_id(p.edicts), ..lists_scan(p) });
    assert(got.from == p.from);
    assert(got.message == message_as_read(p.message)) by {
        if let Some(msg) = p.message {
            assert(framed(msg).len() == msg.len() + 2);
            assert(chunk_count(framed(msg).len()) >= 1);
        }
    }
}

/// An instruction that comes back is read back as it was, but for the
/// order of its edicts.
pub proof fn lemma_as_read_of_what_comes_back(p: ProtostoneView)
    requires
        comes_back(p),
    ensures
        as_read(p) == normalized(p),
{
    if let Some(msg) = p.message {
        lemma_chunk_round_trip(framed(msg));
        lemma_unframed_framed(msg, Seq::<u8>::empty());
        assert(framed(msg) + Seq::<u8>::empty() =~= framed(msg));
    }
}

/// The fields of an instruction that comes back give the instruction, with
/// its edicts sorted.
proof fn lemma_scan_body(ints: Seq<u128>, start: int, end: int, p: ProtostoneView)
    requires
        is_read_back(p),
        0 <= start <= end <= ints.len(),
        ints.subrange(start, end) == body_words(p),
    ensures
        finished(p.subprotocol_id, scan_fields(ints, start, end, empty_scan())) == as_read(p),
{
    let f1 = optional_field(BURN, p.burn);
    let f2 = optional_field(POINTER, widened(p.pointer));
    let f3 = optional_field(REFUND, widened(p.refund_pointer));
    let f4 = from_words(p.from);
    let f5 = message_words(p.message);
    let f6 = edicts_words(p.edicts);
    let o3 = start + f1.len() + f2.len() + f3.len();
    let o5 = o3 + f4.len() + f5.len();
    assert(body_words(p) == f1 + f2 + f3 + f4 + f5 + f6);
    assert(f1 + f2 + f3 + f4 + f5 + f6 =~= (f1 + f2 + f3) + ((f4 + f5) + f6));
    lemma_split(ints, start, end, f1 + f2 + f3, (f4 + f5) + f6);
    lemma_split(ints, o3, end, f4 + f5, f6);
    lemma_scan_heads(ints, start, end, p);
    lemma_scan_lists(ints, o3, end, p);
    lemma_scan_edicts(ints, o5, end, p, lists_scan(p));
    lemma_finished(p);
}

/// The words of a list of instructions, taken from its first instruction.
pub proof fn lemma_stream_words_front(protos: Seq<ProtostoneView>)
    requires
        protos.len() > 0,
    ensures
        stream_words(protos) == protostone_words(protos[0]) + stream_words(protos.drop_first()),
    decreases protos.len(),
{
    if protos.len() == 1 {
        assert(protos.drop_last() =~= Seq::<ProtostoneView>::empty());
        assert(protos.drop_first() =~= Seq::<ProtostoneView>::empty());
        assert(stream_words(protos) =~= protostone_words(protos[0]) + Seq::<u128>::empty());
    } else {
        let front = protos.drop_last();
        lemma_stream_words_front(front);
        assert(front.drop_first() =~= protos.drop_first().drop_last());
        assert(protos.drop_first().last() == protos.last());
        assert(stream_words(protos) =~= protostone_words(protos[0]) + stream_words(
            protos.drop_first(),
        ));
    }
}

/// The instructions are read back from their words, wherever in a list of
/// words these begin, provided they run to its end.
pub proof fn lemma_stream_round_trip(ints: Seq<u128>, pos: int, protos: Seq<ProtostoneView>)
    requires
        forall|i: int| 0 <= i < protos.len() ==> is_read_back(#[trigger] protos[i]),
        0 <= pos <= ints.len(),
        ints.subrange(pos, ints.len() as int) == stream_words(protos),
    ensures
        parsed_stream(ints, pos) == protos.map_values(|p: ProtostoneView| as_read(p)),
    decreases protos.len(),
{
    let want = protos.map_values(|p: ProtostoneView| as_read(p));
    if protos.len() == 0 {
        assert(parsed_stream(ints, pos) =~= want);
    } else {
        let p = protos[0];
        let rest = protos.drop_first();
        let words = protostone_words(p);
        let body = body_words(p);
        let tail = ints.subrange(pos, ints.len() as int);
        lemma_stream_words_front(protos);
        assert(tail == words + stream_words(rest));
        assert(words.len() == body.len() + 2);
        let end = pos + 2 + body.len();
        assert(ints[pos] == tail[0] && tail[0] == p.subprotocol_id);
        assert(ints[pos + 1] == tail[1] && tail[1] == body.len() as u128);
        assert(ints.subrange(pos + 2, end) =~= body) by {
            assert(ints.subrange(pos + 2, end) =~= tail.subrange(2, 2 + body.len() as int));
        }
        lemma_scan_body(ints, pos + 2, end, p);
        assert(ints.subrange(end, ints.len() as int) =~= stream_words(rest)) by {
            assert(ints.subrange(end, ints.len() as int) =~= tail.subrange(
                words.len() as int,
                tail.len() as int,
            ));
        }
        assert forall|i: int| 0 <= i < rest.len() implies is_read_back(#[trigger] rest[i]) by {
            assert(rest[i] == protos[i + 1]);
        }
        lemma_stream_round_trip(ints, end, rest);
        assert(parsed_stream(ints, pos) =~= seq![as_read(p)] + rest.map_values(
            |p: ProtostoneView| as_read(p),
        ));
        assert(parsed_stream(ints, pos) =~= want);
    }
}

/// Decoding what was encoded gives every instruction back as it is read:
/// its absent fields absent, its edicts sorted by asset, and every field
/// but the message as it was, whatever became of the message. This holds
/// for a list of instructions of which each is read back and whose bytes
/// survive packing.
pub proof fn lemma_fields_round_trip(protos: Seq<ProtostoneView>)
    requires
        forall|i: int| 0 <= i < protos.len() ==> is_read_back(#[trigger] protos[i]),
        survives_packing(words_bytes(stream_words(protos))),
    ensures
        parsed_stream(decoded_words(encoded_field(protos)), 0) == protos.map_values(
            |p: ProtostoneView| as_read(p),
        ),
{
    let words = stream_words(protos);
    let bytes = words_bytes(words);
    lemma_chunk_round_trip(bytes);
    lemma_words_round_trip(Seq::<u8>::empty(), words);
    assert(Seq::<u8>::empty() + bytes =~= bytes);
    assert(decoded_words(encoded_field(protos)) == words);
    assert(words.subrange(0, words.len() as int) =~= words);
    lemma_stream_round_trip(words, 0, protos);
}

/// Decoding what was encoded gives every instruction back, its absent
/// fields absent and its edicts sorted by asset, for a list of instructions
/// of which each comes back from its words and whose bytes survive packing.
pub proof fn lemma_round_trip(protos: Seq<ProtostoneView>)
    requires
        forall|i: int| 0 <= i < protos.len() ==> comes_back(#[trigger] protos[i]),
        survives_packing(words_bytes(stream_words(protos))),
    ensures
        parsed_stream(decoded_words(encoded_field(protos)), 0) == protos.map_values(
            |p: ProtostoneView| normalized(p),
        ),
        forall|i: int|
            0 <= i < protos.len() ==> (#[trigger] normalized(protos[i])).edicts.to_multiset()
                == protos[i].edicts.to_multiset(),
{
    lemma_fields_round_trip(protos);
    assert(protos.map_values(|p: ProtostoneView| as_read(p)) =~= protos.map_values(
        |p: ProtostoneView| normalized(p),
    )) by {
        assert forall|i: int| 0 <= i < protos.len() implies as_read(protos[i]) == normalized(
            protos[i],
        ) by {
            lemma_as_read_of_what_comes_back(protos[i]);
        }
    }
    assert forall|i: int| 0 <= i < protos.len() implies (#[trigger] normalized(
        protos[i],
    )).edicts.to_multiset() == protos[i].edicts.to_multiset() by {
        lemma_sorted_by_id(protos[i].edicts);
    }
}

} // verus!
