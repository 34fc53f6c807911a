//! From the words that a transaction carries back to instructions.

use crate::calldata::{decode_calldata, unframed};
use crate::chunks::{unpack_u128_chunks_to_bytes, unpacked_bytes};
use crate::edicts::{parse_edicts_from_body, parsed_edicts};
use crate::protostone::{low_u32, origin, truncate_u32, Edict, Protostone, ProtostoneView, views};
use crate::prototag::{BODY, BURN, FROM, MESSAGE, POINTER, REFUND};
use crate::varint::{bytes_words, read_leb128_u128};
use vstd::prelude::*;

verus! {

/// What the fields of an instruction have given so far.
pub struct Scan {
    pub burn: Option<u128>,
    pub pointer: Option<u32>,
    pub refund_pointer: Option<u32>,
    pub from: Seq<u32>,
    pub message_words: Seq<u128>,
    pub edicts: Seq<Edict>,
}

/// Before the first field.
pub open spec fn empty_scan() -> Scan {
    Scan {
        burn: None,
        pointer: None,
        refund_pointer: None,
        from: Seq::<u32>::empty(),
        message_words: Seq::<u128>::empty(),
        edicts: Seq::<Edict>::empty(),
    }
}

/// `acc` after a field with one value. A later burn, pointer or refund
/// pointer replaces an earlier one; authorising inputs and message words
/// collect; a field with an unknown tag leaves nothing.
pub open spec fn with_field(acc: Scan, tag: u128, value: u128) -> Scan {
    if tag == BURN {
        Scan { burn: Some(value), ..acc }
    } else if tag == POINTER {
        Scan { pointer: Some(low_u32(value)), ..acc }
    } else if tag == REFUND {
        Scan { refund_pointer: Some(low_u32(value)), ..acc }
    } else if tag == FROM {
        Scan { from: acc.from.push(low_u32(value)), ..acc }
    } else if tag == MESSAGE {
        Scan { message_words: acc.message_words.push(value), ..acc }
    } else {
        acc
    }
}

/// What the words `i..end` add to `acc`. A word is a tag and the next its
/// value, but for the tag that begins the edicts: all that follows it are
/// edicts. A tag that is the last word has no value and gives nothing.
pub open spec fn scan_fields(ints: Seq<u128>, i: int, end: int, acc: Scan) -> Scan
    decreases end - i,
{
    if i < 0 || i >= end || end > ints.len() {
        acc
    } else if ints[i] == BODY {
        Scan { edicts: parsed_edicts(ints, i + 1, end, origin()), ..acc }
    } else if i + 1 >= end {
        acc
    } else {
        scan_fields(ints, i + 2, end, with_field(acc, ints[i], ints[i + 1]))
    }
}

/// The instruction of the protocol `id` whose fields gave `scan`. Without
/// authorising inputs there is no list of them. The message is what the
/// collected words hold in its frame; without words, or where the frame is
/// broken, there is no message.
pub open spec fn finished(id: u128, scan: Scan) -> ProtostoneView {
    ProtostoneView {
        subprotocol_id: id,
        edicts: scan.edicts,
        pointer: scan.pointer,
        refund_pointer: scan.refund_pointer,
        burn: scan.burn,
        message: if scan.message_words.len() == 0 {
            None
        } else {
            unframed(unpacked_bytes(scan.message_words))
        },
        from: if scan.from.len() == 0 {
            None
        } else {
            Some(scan.from)
        },
    }
}

/// The instructions that the words from `pos` on hold. An instruction is its
/// protocol, the number of words of its fields, and those words. The list
/// ends where fewer than two words are left, where the protocol or the
/// number is zero, or where the number exceeds the words that are left.
pub open spec fn parsed_stream(ints: Seq<u128>, pos: int) -> Seq<ProtostoneView>
    decreases ints.len() - pos,
{
    if pos < 0 || pos + 2 > ints.len() {
        Seq::<ProtostoneView>::empty()
    } else {
        let id = ints[pos];
        let field_len = ints[pos + 1];
        if id == 0 || field_len == 0 || pos + 2 + field_len > ints.len() {
            Seq::<ProtostoneView>::empty()
        } else {
            let end = pos + 2 + field_len;
            seq![finished(id, scan_fields(ints, pos + 2, end, empty_scan()))] + parsed_stream(
                ints,
                end,
            )
        }
    }
}

/// The words that the carried words hold: unpacked to bytes, and read as
/// variable-length integers up to the first that is not whole.
pub open spec fn decoded_words(chunks: Seq<u128>) -> Seq<u128> {
    bytes_words(unpacked_bytes(chunks), 0)
}

/// Unpacks `chunks` and reads the words in them. Reading stops, without an
/// error, at the first value that is truncated or overflows.
pub fn decode_protocol_chunks_to_ints(chunks: &[u128]) -> (ints: Vec<u128>)
    ensures
        ints@ == decoded_words(chunks@),
{
    let bytes = unpack_u128_chunks_to_bytes(chunks);
    let mut ints: Vec<u128> = Vec::new();
    let mut idx: usize = 0;
    loop
        invariant_except_break
            idx <= bytes.len(),
            ints@ + bytes_words(bytes@, idx as int) == bytes_words(bytes@, 0),
        ensures
            ints@ == bytes_words(bytes@, 0),
        decreases bytes.len() - idx,
    {
        if idx >= bytes.len() {
            assert(ints@ + Seq::<u128>::empty() =~= ints@);
            break ;
        }
        let ghost before = ints@;
        let ghost at = idx as int;
        match read_leb128_u128(bytes.as_slice(), &mut idx) {
            Some(v) => {
                ints.push(v);
                assert(ints@ + bytes_words(bytes@, idx as int) =~= before + bytes_words(bytes@, at));
            },
            None => {
                assert(ints@ + Seq::<u128>::empty() =~= ints@);
                break ;
            },
        }
    }
    ints
}

/// The instruction of the protocol `subprotocol_id` whose fields are the
/// words `start..end`.
fn scan_instruction(ints: &[u128], start: usize, end: usize, subprotocol_id: u128) -> (p:
    Protostone)
    requires
        start <= end <= ints.len(),
    ensures
        p@ == finished(subprotocol_id, scan_fields(ints@, start as int, end as int, empty_scan())),
{
    let mut burn: Option<u128> = None;
    let mut pointer: Option<u32> = None;
    let mut refund_pointer: Option<u32> = None;
    let mut from_vec: Vec<u32> = Vec::new();
    let mut msg_chunks: Vec<u128> = Vec::new();
    let mut edicts: Vec<Edict> = Vec::new();
    let mut i: usize = start;
    while i < end
        invariant
            start <= i <= end <= ints.len(),
            scan_fields(
                ints@,
                i as int,
                end as int,
                Scan {
                    burn,
                    pointer,
                    refund_pointer,
                    from: from_vec@,
                    message_words: msg_chunks@,
                    edicts: edicts@,
                },
            ) == scan_fields(ints@, start as int, end as int, empty_scan()),
        decreases end - i,
    {
        let tag = ints[i];
        i += 1;
        if tag == BODY {
            let (eds, _new_i) = parse_edicts_from_body(ints, i, end);
            edicts = eds;
            i = end;
        } else if i < end {
            let value = ints[i];
            i += 1;
            if tag == BURN {
                burn = Some(value);
            } else if tag == POINTER {
                pointer = Some(truncate_u32(value));
            } else if tag == REFUND {
                refund_pointer = Some(truncate_u32(value));
            } else if tag == FROM {
                from_vec.push(truncate_u32(value));
            } else if tag == MESSAGE {
                msg_chunks.push(value);
            }
        }
    }
    let ghost scan = Scan {
        burn,
        pointer,
        refund_pointer,
        from: from_vec@,
        message_words: msg_chunks@,
        edicts: edicts@,
    };
    let from: Option<Vec<u32>> = if from_vec.len() != 0 {
        Some(from_vec)
    } else {
        None
    };
    let mut message: Option<Vec<u8>> = None;
    if msg_chunks.len() != 0 {
        let raw_bytes = unpack_u128_chunks_to_bytes(msg_chunks.as_slice());
        message = decode_calldata(raw_bytes.as_slice());
    }
    let p = Protostone { subprotocol_id, edicts, pointer, refund_pointer, burn, message, from };
    proof {
        let want = finished(subprotocol_id, scan);
        assert(p@.message == want.message);
        assert(p@.from == want.from);
        assert(p@ == want);
    }
    p
}

/// The instructions that `ints` hold.
pub fn parse_protostones_from_ints(ints: &[u128]) -> (res: Vec<Protostone>)
    ensures
        views(res@) == parsed_stream(ints@, 0),
{
    let mut res: Vec<Protostone> = Vec::new();
    let mut pos: usize = 0;
    assert(views(res@) =~= Seq::<ProtostoneView>::empty());
    loop
        invariant_except_break
            pos <= ints.len(),
            views(res@) + parsed_stream(ints@, pos as int) == parsed_stream(ints@, 0),
        ensures
            views(res@) == parsed_stream(ints@, 0),
        decreases ints.len() - pos,
    {
        if ints.len() - pos < 2 {
            assert(views(res@) + Seq::<ProtostoneView>::empty() =~= views(res@));
            break ;
        }
        let subprotocol_id = ints[pos];
        let field_len = ints[pos + 1];
        let left: usize = ints.len() - pos - 2;
        if subprotocol_id == 0 || field_len == 0 || field_len > left as u128 {
            assert(views(res@) + Seq::<ProtostoneView>::empty() =~= views(res@));
            break ;
        }
        let start: usize = pos + 2;
        let end: usize = start + field_len as usize;
        let p = scan_instruction(ints, start, end, subprotocol_id);
        let ghost before = views(res@);
        res.push(p);
        proof {
            assert(views(res@) =~= before.push(p@));
            assert(views(res@) + parsed_stream(ints@, end as int) =~= before + parsed_stream(
                ints@,
                pos as int,
            ));
        }
        pos = end;
    }
    res
}

/// The instructions that a transaction carries in `chunks`.
pub fn parse_protostones(chunks: &[u128]) -> (res: Vec<Protostone>)
    ensures
        views(res@) == parsed_stream(decoded_words(chunks@), 0),
{
    let ints = decode_protocol_chunks_to_ints(chunks);
    parse_protostones_from_ints(ints.as_slice())
}

} // verus!
