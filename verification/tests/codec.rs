use alkanes_transfer::calldata::{decode_calldata, encode_calldata};
use alkanes_transfer::chunks::{pack_bytes_as_u128_chunks, unpack_u128_chunks_to_bytes};
use alkanes_transfer::decode::{
    decode_protocol_chunks_to_ints, parse_protostones, parse_protostones_from_ints,
};
use alkanes_transfer::edicts::{encode_edicts_to_ints, parse_edicts_from_body, sort_edicts};
use alkanes_transfer::encode::{encode_protocol_field, encode_protostone_to_ints};
use alkanes_transfer::protostone::{Edict, Protostone, RuneId};
use alkanes_transfer::varint::{push_leb128_u128, read_leb128_u128};

fn edict(block: u64, tx: u32, amount: u128, output: u32) -> Edict {
    Edict { id: RuneId { block, tx }, amount, output }
}

fn bare(subprotocol_id: u128) -> Protostone {
    Protostone {
        subprotocol_id,
        edicts: Vec::new(),
        pointer: None,
        refund_pointer: None,
        burn: None,
        message: None,
        from: None,
    }
}

fn encoded(v: u128) -> Vec<u8> {
    let mut out = Vec::new();
    push_leb128_u128(v, &mut out);
    out
}

#[test]
fn varint_zero_is_one_zero_byte() {
    assert_eq!(encoded(0), vec![0x00]);
}

#[test]
fn varint_small_values_take_one_byte() {
    assert_eq!(encoded(1), vec![0x01]);
    assert_eq!(encoded(127), vec![0x7f]);
}

#[test]
fn varint_sets_the_continuation_bit() {
    assert_eq!(encoded(128), vec![0x80, 0x01]);
    assert_eq!(encoded(300), vec![0xac, 0x02]);
    assert_eq!(encoded(16383), vec![0xff, 0x7f]);
    assert_eq!(encoded(800000), vec![0x80, 0xea, 0x30]);
}

#[test]
fn varint_appends_to_what_is_there() {
    let mut out = vec![9u8, 9];
    push_leb128_u128(128, &mut out);
    assert_eq!(out, vec![9, 9, 0x80, 0x01]);
}

#[test]
fn varint_largest_value_takes_nineteen_bytes() {
    let bytes = encoded(u128::MAX);
    assert_eq!(bytes.len(), 19);
    assert_eq!(bytes[18], 0x03);
    let mut idx = 0;
    assert_eq!(read_leb128_u128(&bytes, &mut idx), Some(u128::MAX));
    assert_eq!(idx, 19);
}

#[test]
fn varint_round_trip_on_chosen_values() {
    for v in [0u128, 1, 127, 128, 255, 256, 16383, 16384, 1 << 64, (1 << 126) + 5, u128::MAX] {
        let bytes = encoded(v);
        let mut idx = 0;
        assert_eq!(read_leb128_u128(&bytes, &mut idx), Some(v));
        assert_eq!(idx, bytes.len());
    }
}

#[test]
fn varint_reads_from_the_given_index() {
    let bytes = vec![0x05, 0xac, 0x02, 0x07];
    let mut idx = 1;
    assert_eq!(read_leb128_u128(&bytes, &mut idx), Some(300));
    assert_eq!(idx, 3);
    assert_eq!(read_leb128_u128(&bytes, &mut idx), Some(7));
    assert_eq!(idx, 4);
}

#[test]
fn varint_truncated_gives_none() {
    let bytes = vec![0x80, 0x80];
    let mut idx = 0;
    assert_eq!(read_leb128_u128(&bytes, &mut idx), None);
    assert_eq!(idx, 2);
}

#[test]
fn varint_read_past_the_end_gives_none() {
    let bytes = vec![0x01];
    let mut idx = 1;
    assert_eq!(read_leb128_u128(&bytes, &mut idx), None);
    assert_eq!(idx, 1);
    let mut far = 5;
    assert_eq!(read_leb128_u128(&bytes, &mut far), None);
    assert_eq!(far, 5);
}

#[test]
fn varint_overflow_gives_none_after_nineteen_bytes() {
    let mut bytes = vec![0x80u8; 19];
    bytes.push(0x01);
    let mut idx = 0;
    assert_eq!(read_leb128_u128(&bytes, &mut idx), None);
    assert_eq!(idx, 19);
}

#[test]
fn varint_drops_bits_beyond_the_word() {
    let mut bytes = vec![0x80u8; 18];
    bytes.push(0x7f);
    let mut idx = 0;
    assert_eq!(read_leb128_u128(&bytes, &mut idx), Some(3u128 << 126));
    assert_eq!(idx, 19);
}

#[test]
fn pack_of_nothing_is_nothing() {
    assert_eq!(pack_bytes_as_u128_chunks(&[]), Vec::<u128>::new());
    assert_eq!(unpack_u128_chunks_to_bytes(&[]), Vec::<u8>::new());
}

#[test]
fn pack_reads_bytes_lowest_first() {
    assert_eq!(pack_bytes_as_u128_chunks(&[0x01, 0x02]), vec![0x0201]);
    assert_eq!(pack_bytes_as_u128_chunks(&[0xff]), vec![0xff]);
}

#[test]
fn pack_splits_after_fifteen_bytes() {
    let bytes: Vec<u8> = (1..=17).collect();
    let words = pack_bytes_as_u128_chunks(&bytes);
    assert_eq!(words.len(), 2);
    assert_eq!(words[0], 0x0f0e0d0c0b0a090807060504030201);
    assert_eq!(words[1], 0x1110);
    assert_eq!(unpack_u128_chunks_to_bytes(&words), bytes);
}

#[test]
fn pack_of_exactly_fifteen_bytes_is_one_word() {
    let bytes = vec![0xffu8; 15];
    let words = pack_bytes_as_u128_chunks(&bytes);
    assert_eq!(words, vec![(1u128 << 120) - 1]);
    assert_eq!(unpack_u128_chunks_to_bytes(&words), bytes);
}

#[test]
fn unpack_zero_word_is_one_zero_byte() {
    assert_eq!(unpack_u128_chunks_to_bytes(&[0]), vec![0]);
    assert_eq!(unpack_u128_chunks_to_bytes(&[0, 0]), vec![0, 0]);
}

#[test]
fn unpack_takes_at_most_fifteen_bytes_of_a_word() {
    assert_eq!(unpack_u128_chunks_to_bytes(&[u128::MAX]), vec![0xffu8; 15]);
}

#[test]
fn unpack_keeps_zero_bytes_below_the_highest_byte() {
    assert_eq!(unpack_u128_chunks_to_bytes(&[0x01_00_02]), vec![0x02, 0x00, 0x01]);
    let bytes = vec![7u8, 0, 9];
    assert_eq!(unpack_u128_chunks_to_bytes(&pack_bytes_as_u128_chunks(&bytes)), bytes);
}

#[test]
fn unpack_loses_zero_bytes_at_the_end_of_a_group() {
    let words = pack_bytes_as_u128_chunks(&[7, 0]);
    assert_eq!(words, vec![7]);
    assert_eq!(unpack_u128_chunks_to_bytes(&words), vec![7]);
    assert_eq!(unpack_u128_chunks_to_bytes(&pack_bytes_as_u128_chunks(&[0, 0, 0])), vec![0]);
}

#[test]
fn chunk_round_trip_without_zero_at_group_ends() {
    let bytes: Vec<u8> = (0..100u32).map(|i| (i % 251 + 1) as u8).collect();
    assert_eq!(unpack_u128_chunks_to_bytes(&pack_bytes_as_u128_chunks(&bytes)), bytes);
}

#[test]
fn calldata_is_framed_by_markers() {
    assert_eq!(encode_calldata(&[]), vec![1, 1]);
    assert_eq!(encode_calldata(&[5, 0, 6]), vec![1, 5, 0, 6, 1]);
}

#[test]
fn calldata_round_trip() {
    assert_eq!(decode_calldata(&encode_calldata(&[5, 0, 6])), Some(vec![5, 0, 6]));
    assert_eq!(decode_calldata(&encode_calldata(&[])), Some(vec![]));
}

#[test]
fn calldata_ignores_zero_bytes_behind_the_frame() {
    assert_eq!(decode_calldata(&[1, 9, 8, 1, 0, 0]), Some(vec![9, 8]));
}

#[test]
fn calldata_rejects_broken_frames() {
    assert_eq!(decode_calldata(&[]), None);
    assert_eq!(decode_calldata(&[1]), None);
    assert_eq!(decode_calldata(&[2, 5, 1]), None);
    assert_eq!(decode_calldata(&[1, 5, 2]), None);
    assert_eq!(decode_calldata(&[0, 5, 1]), None);
}

#[test]
fn calldata_needs_a_marker_at_each_end() {
    assert_eq!(decode_calldata(&[1, 0]), None);
    assert_eq!(decode_calldata(&[1, 0, 0, 0]), None);
    assert_eq!(decode_calldata(&[2, 1]), None);
    assert_eq!(decode_calldata(&[1, 5]), None);
    assert_eq!(decode_calldata(&[1, 1]), Some(vec![]));
    assert_eq!(decode_calldata(&[1, 1, 0]), Some(vec![]));
    assert_eq!(decode_calldata(&[1, 0, 1]), Some(vec![0]));
}

#[test]
fn sort_is_by_block_then_tx_and_stable() {
    let sorted = sort_edicts(&[
        edict(7, 0, 1, 0),
        edict(5, 2, 10, 1),
        edict(5, 1, 4, 9),
        edict(5, 2, 3, 2),
    ]);
    assert_eq!(
        sorted,
        vec![edict(5, 1, 4, 9), edict(5, 2, 10, 1), edict(5, 2, 3, 2), edict(7, 0, 1, 0)]
    );
}

#[test]
fn delta_encoding_of_three_edicts() {
    let ints = encode_edicts_to_ints(&[
        edict(5, 2, 10, 1),
        edict(5, 2, 3, 2),
        edict(7, 0, 1, 0),
    ]);
    assert_eq!(ints, vec![5, 2, 10, 1, 0, 0, 3, 2, 2, 0, 1, 0]);
}

#[test]
fn delta_encoding_sorts_first() {
    let ints = encode_edicts_to_ints(&[
        edict(7, 0, 1, 0),
        edict(5, 2, 3, 2),
        edict(5, 1, 10, 1),
    ]);
    assert_eq!(ints, vec![5, 1, 10, 1, 0, 1, 3, 2, 2, 0, 1, 0]);
}

#[test]
fn delta_encoding_of_no_edicts_is_empty() {
    assert_eq!(encode_edicts_to_ints(&[]), Vec::<u128>::new());
}

#[test]
fn edicts_are_parsed_back() {
    let ints = vec![99, 5, 2, 10, 1, 0, 0, 3, 2, 2, 0, 1, 0];
    let (edicts, next) = parse_edicts_from_body(&ints, 1, 13);
    assert_eq!(edicts, vec![edict(5, 2, 10, 1), edict(5, 2, 3, 2), edict(7, 0, 1, 0)]);
    assert_eq!(next, 13);
}

#[test]
fn edicts_parse_ignores_an_incomplete_group() {
    let ints = vec![5, 2, 10, 1, 0, 0, 3];
    let (edicts, next) = parse_edicts_from_body(&ints, 0, 7);
    assert_eq!(edicts, vec![edict(5, 2, 10, 1)]);
    assert_eq!(next, 4);
}

#[test]
fn edicts_parse_truncates_and_wraps() {
    let ints = vec![u64::MAX as u128, 1, 7, (1u128 << 32) + 4, 2, 3, 8, 0];
    let (edicts, _) = parse_edicts_from_body(&ints, 0, 8);
    assert_eq!(edicts, vec![edict(u64::MAX, 1, 7, 4), edict(1, 3, 8, 0)]);
}

#[test]
fn end_to_end_transfer_instruction() {
    let mut p = bare(1);
    p.edicts = vec![edict(800000, 7, 500, 1)];
    p.pointer = Some(0);
    p.refund_pointer = Some(0);
    let ints = encode_protostone_to_ints(&p);
    assert_eq!(ints, vec![1, 9, 91, 0, 93, 0, 0, 800000, 7, 500, 1]);
    let back = parse_protostones_from_ints(&ints);
    assert_eq!(back.len(), 1);
    assert_eq!(back[0].subprotocol_id, 1);
    assert_eq!(back[0].edicts, vec![edict(800000, 7, 500, 1)]);
    assert_eq!(back[0].pointer, Some(0));
    assert_eq!(back[0].refund_pointer, Some(0));
    assert_eq!(back[0].burn, None);
    assert_eq!(back[0].message, None);
    assert_eq!(back[0].from, None);
}

#[test]
fn end_to_end_through_the_carrier_words() {
    let mut p = bare(1);
    p.edicts = vec![edict(800000, 7, 500, 1)];
    p.pointer = Some(0);
    p.refund_pointer = Some(0);
    let chunks = encode_protocol_field(&[p]);
    assert_eq!(
        decode_protocol_chunks_to_ints(&chunks),
        vec![1, 9, 91, 0, 93, 0, 0, 800000, 7, 500, 1]
    );
    let back = parse_protostones(&chunks);
    assert_eq!(back.len(), 1);
    assert_eq!(back[0].edicts, vec![edict(800000, 7, 500, 1)]);
    assert_eq!(back[0].pointer, Some(0));
    assert_eq!(back[0].refund_pointer, Some(0));
}

#[test]
fn fields_are_written_in_order() {
    let mut p = bare(2);
    p.burn = Some(77);
    p.pointer = Some(3);
    p.refund_pointer = Some(4);
    p.from = Some(vec![8, 9]);
    p.message = Some(vec![0xaa]);
    p.edicts = vec![edict(1, 1, 5, 2)];
    let ints = encode_protostone_to_ints(&p);
    assert_eq!(
        ints,
        vec![2, 17, 83, 77, 91, 3, 93, 4, 95, 8, 95, 9, 81, 0x01aa01, 0, 1, 1, 5, 2]
    );
    let back = parse_protostones_from_ints(&ints);
    assert_eq!(back.len(), 1);
    assert_eq!(back[0].burn, Some(77));
    assert_eq!(back[0].pointer, Some(3));
    assert_eq!(back[0].refund_pointer, Some(4));
    assert_eq!(back[0].from, Some(vec![8, 9]));
    assert_eq!(back[0].message, Some(vec![0xaa]));
    assert_eq!(back[0].edicts, vec![edict(1, 1, 5, 2)]);
}

#[test]
fn length_counts_words_not_bytes() {
    let mut p = bare(1 << 100);
    p.burn = Some(u128::MAX);
    let ints = encode_protostone_to_ints(&p);
    assert_eq!(ints, vec![1 << 100, 2, 83, u128::MAX]);
}

#[test]
fn instruction_without_fields_has_length_zero() {
    assert_eq!(encode_protostone_to_ints(&bare(5)), vec![5, 0]);
    assert_eq!(parse_protostones_from_ints(&[5, 0]).len(), 0);
}

#[test]
fn empty_list_encodes_to_nothing() {
    assert_eq!(encode_protocol_field(&[]), Vec::<u128>::new());
    assert_eq!(parse_protostones(&[]).len(), 0);
}

#[test]
fn several_instructions_follow_each_other() {
    let mut a = bare(1);
    a.pointer = Some(2);
    let mut b = bare(3);
    b.edicts = vec![edict(9, 1, 4, 1), edict(2, 5, 6, 3)];
    let chunks = encode_protocol_field(&[a, b]);
    let back = parse_protostones(&chunks);
    assert_eq!(back.len(), 2);
    assert_eq!(back[0].subprotocol_id, 1);
    assert_eq!(back[0].pointer, Some(2));
    assert_eq!(back[1].subprotocol_id, 3);
    assert_eq!(back[1].edicts, vec![edict(2, 5, 6, 3), edict(9, 1, 4, 1)]);
}

#[test]
fn parse_stops_at_protocol_zero() {
    let back = parse_protostones_from_ints(&[1, 2, 91, 5, 0, 2, 91, 6]);
    assert_eq!(back.len(), 1);
    assert_eq!(back[0].pointer, Some(5));
}

#[test]
fn parse_stops_where_the_length_runs_past_the_end() {
    assert_eq!(parse_protostones_from_ints(&[1, 3, 91, 5]).len(), 0);
    assert_eq!(parse_protostones_from_ints(&[1, u128::MAX, 91, 5]).len(), 0);
    assert_eq!(parse_protostones_from_ints(&[1, (1u128 << 64) + 2, 91, 5]).len(), 0);
    assert_eq!(parse_protostones_from_ints(&[1]).len(), 0);
}

#[test]
fn parse_skips_the_value_of_an_unknown_tag() {
    let back = parse_protostones_from_ints(&[1, 6, 126, 91, 127, 93, 91, 7]);
    assert_eq!(back.len(), 1);
    assert_eq!(back[0].pointer, Some(7));
    assert_eq!(back[0].refund_pointer, None);
}

#[test]
fn parse_ignores_a_tag_without_value() {
    let back = parse_protostones_from_ints(&[1, 3, 91, 7, 83]);
    assert_eq!(back.len(), 1);
    assert_eq!(back[0].pointer, Some(7));
    assert_eq!(back[0].burn, None);
}

#[test]
fn parse_keeps_the_last_of_a_repeated_field() {
    let back = parse_protostones_from_ints(&[1, 4, 91, 7, 91, 8]);
    assert_eq!(back[0].pointer, Some(8));
}

#[test]
fn parse_truncates_pointers_to_32_bits() {
    let back = parse_protostones_from_ints(&[1, 2, 91, (1u128 << 32) + 7]);
    assert_eq!(back[0].pointer, Some(7));
}

#[test]
fn parse_takes_all_behind_the_body_tag_as_edicts() {
    let back = parse_protostones_from_ints(&[1, 7, 0, 5, 2, 10, 1, 91, 9]);
    assert_eq!(back.len(), 1);
    assert_eq!(back[0].edicts, vec![edict(5, 2, 10, 1)]);
    assert_eq!(back[0].pointer, None);
}

#[test]
fn parse_drops_a_message_with_a_broken_frame() {
    let back = parse_protostones_from_ints(&[1, 2, 81, 0x0302]);
    assert_eq!(back.len(), 1);
    assert_eq!(back[0].message, None);
}

#[test]
fn message_of_more_than_one_word_round_trips() {
    let mut p = bare(1);
    let msg: Vec<u8> = (1..=40).collect();
    p.message = Some(msg.clone());
    let back = parse_protostones(&encode_protocol_field(&[p]));
    assert_eq!(back.len(), 1);
    assert_eq!(back[0].message, Some(msg));
}

#[test]
fn decode_stops_silently_at_a_truncated_integer() {
    let words = pack_bytes_as_u128_chunks(&[0x05, 0xac, 0x02, 0x80]);
    assert_eq!(decode_protocol_chunks_to_ints(&words), vec![5, 300]);
}

#[test]
fn a_zero_byte_at_the_end_of_the_bytes_is_lost() {
    // the words 1, 5, 0, 1, 1, 5, 0 are seven bytes that end in zero
    let mut p = bare(1);
    p.edicts = vec![edict(1, 1, 5, 0)];
    let chunks = encode_protocol_field(&[p]);
    assert_eq!(chunks, vec![0x00_05_01_01_00_05_01]);
    assert_eq!(decode_protocol_chunks_to_ints(&chunks), vec![1, 5, 0, 1, 1, 5]);
    assert_eq!(parse_protostones(&chunks).len(), 0);
}

#[test]
fn an_empty_list_of_inputs_does_not_come_back() {
    let mut p = bare(1);
    p.pointer = Some(4);
    p.from = Some(vec![]);
    let back = parse_protostones(&encode_protocol_field(&[p]));
    assert_eq!(back.len(), 1);
    assert_eq!(back[0].from, None);
}

#[test]
fn a_message_with_a_zero_at_the_end_of_a_group_does_not_come_back() {
    // framed, the fourteenth byte of the message is the fifteenth of the first group
    let mut msg = vec![7u8; 20];
    msg[13] = 0;
    let mut p = bare(1);
    p.message = Some(msg);
    let back = parse_protostones_from_ints(&encode_protostone_to_ints(&p));
    assert_eq!(back.len(), 1);
    assert_ne!(back[0].message, p.message);
}

fn survives_packing(bytes: &[u8]) -> bool {
    bytes.chunks(15).all(|group| group.len() == 1 || group[group.len() - 1] != 0)
}

#[test]
fn round_trip_of_all_fields_through_the_carrier_words() {
    let mut came_back = 0;
    for len in 0..60usize {
        let mut a = bare(7);
        a.burn = Some(1 << 90);
        a.pointer = Some(u32::MAX);
        a.refund_pointer = Some(1);
        a.from = Some(vec![3, 0, 3]);
        a.message = Some((0..len).map(|i| (i % 200 + 1) as u8).collect());
        a.edicts = vec![edict(9, 9, 1, 1), edict(9, 2, u128::MAX, 2), edict(0, 4, 3, 3)];
        let mut b = bare(u128::MAX);
        b.edicts = vec![edict(u64::MAX, u32::MAX, 5, u32::MAX)];
        let mut bytes = Vec::new();
        for p in [&a, &b] {
            for word in encode_protostone_to_ints(p) {
                push_leb128_u128(word, &mut bytes);
            }
        }
        if !survives_packing(&bytes) {
            continue;
        }
        came_back += 1;
        let back = parse_protostones(&encode_protocol_field(&[a.clone(), b.clone()]));
        assert_eq!(back.len(), 2);
        assert_eq!(back[0].subprotocol_id, 7);
        assert_eq!(back[0].burn, a.burn);
        assert_eq!(back[0].pointer, a.pointer);
        assert_eq!(back[0].refund_pointer, a.refund_pointer);
        assert_eq!(back[0].from, a.from);
        assert_eq!(back[0].message, a.message);
        assert_eq!(
            back[0].edicts,
            vec![edict(0, 4, 3, 3), edict(9, 2, u128::MAX, 2), edict(9, 9, 1, 1)]
        );
        assert_eq!(back[1].subprotocol_id, u128::MAX);
        assert_eq!(back[1].edicts, b.edicts);
    }
    assert!(came_back >= 20);
}

#[test]
fn chunks_come_back_exactly_where_no_group_ends_in_a_lost_zero() {
    let mut state = 12345u32;
    for _ in 0..500 {
        state = state.wrapping_mul(1103515245).wrapping_add(12345);
        let len = (state >> 16) as usize % 40;
        let bytes: Vec<u8> = (0..len)
            .map(|_| {
                state = state.wrapping_mul(1103515245).wrapping_add(12345);
                ((state >> 16) % 4) as u8
            })
            .collect();
        let back = unpack_u128_chunks_to_bytes(&pack_bytes_as_u128_chunks(&bytes));
        assert_eq!(back == bytes, survives_packing(&bytes));
    }
}

#[test]
fn well_formed_instructions() {
    let mut p = bare(1);
    assert!(p.is_well_formed());
    p.edicts = vec![edict(1, 1, 5, 0), edict(1, 1, 1, 0)];
    assert!(p.is_well_formed());
    p.edicts.push(edict(2, 2, 0, 1));
    assert!(!p.is_well_formed());
    assert!(!bare(0).is_well_formed());
}
